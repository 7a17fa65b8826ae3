//! The two work flows built from the other modules: extracting the extant
//! subtree of a dated species tree, and generating gene trees by dated
//! transfers.  Everything here computes on values; reading and writing files
//! is the caller's business.

use vstd::prelude::*;

use crate::metric::depths_monotone_from;
use crate::newick::{newick_to_tree, node_to_newick};
use crate::rng::{WeightedU64, choose_multiple_usize};
use crate::sampler::{generate_transfers, make_transfers_csv, transfer_allowed};
use crate::surgery::{can_remove, remove_node, spr};
use crate::traverse::{find_deepest_nodes, spec_traverse};
use crate::tree::{FlatNode, FlatTree, Node, TraversalOrder, wf};

verus! {

/// The walk entries that are leaves.
pub open spec fn spec_leaf_indices(nodes: Seq<FlatNode>, walk: Seq<usize>) -> Seq<usize>
    decreases walk.len(),
{
    if walk.len() == 0 {
        seq![]
    } else {
        let rest = spec_leaf_indices(nodes, walk.drop_last());
        let i = walk.last() as int;
        if nodes[i].left_child is None && nodes[i].right_child is None {
            rest + seq![walk.last()]
        } else {
            rest
        }
    }
}

/// Every leaf of the tree, in the order a pre-order walk meets them.
pub fn find_all_leaves(flat_tree: &FlatTree) -> (r: Vec<usize>)
    requires
        wf(*flat_tree),
    ensures
        r@ == spec_leaf_indices(
            flat_tree.nodes@,
            spec_traverse(
                flat_tree.nodes@,
                flat_tree.root as int,
                TraversalOrder::PreOrder,
                flat_tree.nodes@.len() as nat,
            ),
        ),
        forall|k: int| 0 <= k < r@.len() ==> (#[trigger] r@[k]) < flat_tree.nodes@.len(),
{
    let ghost ns = flat_tree.nodes@;
    let walk = flat_tree.iter(TraversalOrder::PreOrder);
    proof {
        crate::traverse::lemma_traverse_in_range(
            ns,
            flat_tree.root as int,
            TraversalOrder::PreOrder,
            ns.len() as nat,
        );
    }
    let mut r: Vec<usize> = Vec::new();
    let mut k: usize = 0;
    while k < walk.len()
        invariant
            ns == flat_tree.nodes@,
            k <= walk@.len(),
            forall|q: int| 0 <= q < walk@.len() ==> (#[trigger] walk@[q]) < ns.len(),
            r@ == spec_leaf_indices(ns, walk@.subrange(0, k as int)),
            forall|q: int| 0 <= q < r@.len() ==> (#[trigger] r@[q]) < ns.len(),
        decreases walk@.len() - k,
    {
        proof {
            assert(walk@.subrange(0, k + 1).drop_last() =~= walk@.subrange(0, k as int));
            assert(walk@.subrange(0, k + 1).last() == walk@[k as int]);
        }
        let i = walk[k];
        if flat_tree.nodes[i].left_child.is_none() && flat_tree.nodes[i].right_child.is_none() {
            r.push(i);
        }
        k = k + 1;
    }
    proof {
        assert(walk@.subrange(0, walk@.len() as int) =~= walk@);
    }
    r
}

/// Leaf filtering distributes over walk concatenation.
pub proof fn lemma_leaf_indices_concat(nodes: Seq<FlatNode>, a: Seq<usize>, b: Seq<usize>)
    ensures
        spec_leaf_indices(nodes, a + b) == spec_leaf_indices(nodes, a) + spec_leaf_indices(
            nodes,
            b,
        ),
    decreases b.len(),
{
    if b.len() == 0 {
        assert(a + b =~= a);
        assert(spec_leaf_indices(nodes, a) + spec_leaf_indices(nodes, b) =~= spec_leaf_indices(
            nodes,
            a,
        ));
    } else {
        lemma_leaf_indices_concat(nodes, a, b.drop_last());
        assert((a + b).drop_last() =~= a + b.drop_last());
        assert((a + b).last() == b.last());
        if nodes[b.last() as int].left_child is None && nodes[b.last() as int].right_child
            is None {
            assert(spec_leaf_indices(nodes, a + b) =~= spec_leaf_indices(nodes, a)
                + spec_leaf_indices(nodes, b));
        } else {
            assert(spec_leaf_indices(nodes, a + b) =~= spec_leaf_indices(nodes, a)
                + spec_leaf_indices(nodes, b));
        }
    }
}

/// A pre-order walk of a well-formed arena always meets a leaf.
pub proof fn lemma_walk_has_leaf(nodes: Seq<FlatNode>, i: int, fuel: nat)
    requires
        crate::convert::wf_arena(nodes),
        nodes.len() <= usize::MAX,
        0 <= i < nodes.len(),
        fuel >= nodes.len() - crate::tree::chain_dist(nodes, i),
    ensures
        spec_leaf_indices(nodes, spec_traverse(nodes, i, TraversalOrder::PreOrder, fuel)).len()
            > 0,
    decreases fuel,
{
    assert(crate::tree::links_ok_at(nodes, i));
    crate::tree::lemma_chain_bound(nodes, i, nodes.len() as nat);
    let walk = spec_traverse(nodes, i, TraversalOrder::PreOrder, fuel);
    if nodes[i].left_child is None && nodes[i].right_child is None {
        assert(walk =~= seq![i as usize]);
        assert(walk.drop_last() =~= Seq::<usize>::empty());
        assert(spec_leaf_indices(nodes, Seq::<usize>::empty()).len() == 0);
        assert(walk.last() == i as usize);
        assert(spec_leaf_indices(nodes, walk) =~= spec_leaf_indices(
            nodes,
            Seq::<usize>::empty(),
        ) + seq![i as usize]);
    } else {
        let l = nodes[i].left_child->Some_0 as int;
        assert(crate::tree::links_ok_at(nodes, l));
        crate::tree::lemma_chain_dist_step(nodes, l);
        lemma_walk_has_leaf(nodes, l, (fuel - 1) as nat);
        let ls = spec_traverse(nodes, l, TraversalOrder::PreOrder, (fuel - 1) as nat);
        let rs = spec_traverse(
            nodes,
            nodes[i].right_child->Some_0 as int,
            TraversalOrder::PreOrder,
            (fuel - 1) as nat,
        );
        assert(walk == seq![i as usize] + ls + rs);
        lemma_leaf_indices_concat(nodes, seq![i as usize] + ls, rs);
        lemma_leaf_indices_concat(nodes, seq![i as usize], ls);
    }
}

/// Stable insertion grows a list by one; sorting keeps its length.
pub proof fn lemma_sort_desc_len(s: Seq<(usize, u64)>)
    ensures
        crate::traverse::spec_sort_desc(s).len() == s.len(),
    decreases s.len(),
{
    if s.len() > 0 {
        lemma_sort_desc_len(s.drop_last());
        lemma_insert_desc_len(crate::traverse::spec_sort_desc(s.drop_last()), s.last());
    }
}

proof fn lemma_insert_desc_len(s: Seq<(usize, u64)>, x: (usize, u64))
    ensures
        crate::traverse::spec_insert_desc(s, x).len() == s.len() + 1,
    decreases s.len(),
{
    if s.len() > 0 && s.last().1 < x.1 {
        lemma_insert_desc_len(s.drop_last(), x);
    }
}

/// The leaf-depth list is as long as the leaf list.
pub proof fn lemma_leaf_depths_len(nodes: Seq<FlatNode>, walk: Seq<usize>)
    ensures
        crate::traverse::spec_leaf_depths(nodes, walk).len() == spec_leaf_indices(
            nodes,
            walk,
        ).len(),
    decreases walk.len(),
{
    if walk.len() > 0 {
        lemma_leaf_depths_len(nodes, walk.drop_last());
    }
}

/// Whether some string of the list reads the same as `name`.
pub open spec fn name_in(names: Seq<String>, name: Seq<char>) -> bool {
    exists|k: int| 0 <= k < names.len() && (#[trigger] names[k])@ == name
}

/// The candidates that are not in the excluded list, in order.
pub open spec fn filter_not_in(cand: Seq<usize>, excl: Seq<usize>) -> Seq<usize>
    decreases cand.len(),
{
    if cand.len() == 0 {
        seq![]
    } else {
        let rest = filter_not_in(cand.drop_last(), excl);
        if excl.contains(cand.last()) {
            rest
        } else {
            rest + seq![cand.last()]
        }
    }
}

/// The candidate slots whose name occurs in the list, in order.
pub open spec fn filter_named(
    nodes: Seq<FlatNode>,
    cand: Seq<usize>,
    names: Seq<String>,
) -> Seq<usize>
    decreases cand.len(),
{
    if cand.len() == 0 {
        seq![]
    } else {
        let rest = filter_named(nodes, cand.drop_last(), names);
        if name_in(names, nodes[cand.last() as int].name@) {
            rest + seq![cand.last()]
        } else {
            rest
        }
    }
}

/// Whether a name reads the same as some listed slot's name of the other
/// arena.
pub open spec fn name_among(name: Seq<char>, sns: Seq<FlatNode>, slots: Seq<usize>) -> bool {
    exists|k: int| 0 <= k < slots.len() && name == sns[(#[trigger] slots[k]) as int].name@
}

/// The candidate slots whose name occurs among the listed slots of the
/// other arena, in order.
pub open spec fn filter_extant(
    nodes: Seq<FlatNode>,
    cand: Seq<usize>,
    sns: Seq<FlatNode>,
    slots: Seq<usize>,
) -> Seq<usize>
    decreases cand.len(),
{
    if cand.len() == 0 {
        seq![]
    } else {
        let rest = filter_extant(nodes, cand.drop_last(), sns, slots);
        if name_among(nodes[cand.last() as int].name@, sns, slots) {
            rest + seq![cand.last()]
        } else {
            rest
        }
    }
}

fn contains_name(names: &Vec<String>, name: &String) -> (r: bool)
    ensures
        r == name_in(names@, name@),
{
    let mut k: usize = 0;
    while k < names.len()
        invariant
            k <= names@.len(),
            forall|q: int| 0 <= q < k ==> (#[trigger] names@[q])@ != name@,
        decreases names@.len() - k,
    {
        if names[k].eq(name) {
            proof {
                assert(names@[k as int]@ == name@);
            }
            return true;
        }
        k = k + 1;
    }
    false
}

/// The leaves of `flat_tree` whose name occurs among the leaf names of
/// `flat_sampled_tree`.
pub fn find_all_extant_leaves(flat_tree: &FlatTree, flat_sampled_tree: &FlatTree) -> (r: Vec<usize>)
    requires
        wf(*flat_tree),
        wf(*flat_sampled_tree),
    ensures
        r@ == filter_extant(
            flat_tree.nodes@,
            spec_leaf_indices(
                flat_tree.nodes@,
                spec_traverse(
                    flat_tree.nodes@,
                    flat_tree.root as int,
                    TraversalOrder::PreOrder,
                    flat_tree.nodes@.len() as nat,
                ),
            ),
            flat_sampled_tree.nodes@,
            spec_leaf_indices(
                flat_sampled_tree.nodes@,
                spec_traverse(
                    flat_sampled_tree.nodes@,
                    flat_sampled_tree.root as int,
                    TraversalOrder::PreOrder,
                    flat_sampled_tree.nodes@.len() as nat,
                ),
            ),
        ),
        forall|k: int| 0 <= k < r@.len() ==> (#[trigger] r@[k]) < flat_tree.nodes@.len()
            && flat_tree.nodes@[r@[k] as int].left_child is None
            && flat_tree.nodes@[r@[k] as int].right_child is None,
{
    let sampled_leaves = find_all_leaves(flat_sampled_tree);
    let ghost sns = flat_sampled_tree.nodes@;
    let ghost slots = sampled_leaves@;
    let mut sampled_names: Vec<String> = Vec::new();
    let mut k: usize = 0;
    while k < sampled_leaves.len()
        invariant
            wf(*flat_sampled_tree),
            sns == flat_sampled_tree.nodes@,
            slots == sampled_leaves@,
            k <= slots.len(),
            forall|q: int| 0 <= q < slots.len() ==> (#[trigger] slots[q]) < sns.len(),
            sampled_names@.len() == k,
            forall|q: int| 0 <= q < k ==> (#[trigger] sampled_names@[q])@ == sns[slots[q] as int].name@,
        decreases slots.len() - k,
    {
        let i = sampled_leaves[k];
        sampled_names.push(crate::pipeline::clone_name(&flat_sampled_tree.nodes[i].name));
        k = k + 1;
    }
    let leaves = find_all_leaves(flat_tree);
    let ghost ns = flat_tree.nodes@;
    proof {
        lemma_leaf_indices_are_leaves(
            ns,
            spec_traverse(ns, flat_tree.root as int, TraversalOrder::PreOrder, ns.len() as nat),
        );
    }
    let mut r: Vec<usize> = Vec::new();
    let mut k2: usize = 0;
    while k2 < leaves.len()
        invariant
            ns == flat_tree.nodes@,
            sns == flat_sampled_tree.nodes@,
            slots == sampled_leaves@,
            sampled_names@.len() == slots.len(),
            forall|q: int| 0 <= q < slots.len() ==> (#[trigger] sampled_names@[q])@ == sns[slots[q] as int].name@,
            k2 <= leaves@.len(),
            forall|q: int| 0 <= q < leaves@.len() ==> (#[trigger] leaves@[q]) < ns.len()
                && ns[leaves@[q] as int].left_child is None && ns[leaves@[q] as int].right_child
                is None,
            r@ == filter_extant(ns, leaves@.subrange(0, k2 as int), sns, slots),
            forall|q: int| 0 <= q < r@.len() ==> (#[trigger] r@[q]) < ns.len() && ns[r@[q] as int].left_child
                is None && ns[r@[q] as int].right_child is None,
        decreases leaves@.len() - k2,
    {
        proof {
            assert(leaves@.subrange(0, k2 + 1).drop_last() =~= leaves@.subrange(0, k2 as int));
            assert(leaves@.subrange(0, k2 + 1).last() == leaves@[k2 as int]);
        }
        let i = leaves[k2];
        let hit = contains_name(&sampled_names, &flat_tree.nodes[i].name);
        proof {
            assert(name_in(sampled_names@, ns[i as int].name@) == name_among(
                ns[i as int].name@,
                sns,
                slots,
            )) by {
                if name_in(sampled_names@, ns[i as int].name@) {
                    let q = choose|q: int|
                        0 <= q < sampled_names@.len() && (#[trigger] sampled_names@[q])@ == ns[
                        i as int].name@;
                    assert(ns[i as int].name@ == sns[slots[q] as int].name@);
                }
                if name_among(ns[i as int].name@, sns, slots) {
                    let q = choose|q: int|
                        0 <= q < slots.len() && ns[i as int].name@ == sns[(#[trigger] slots[q]) as int].name@;
                    assert(sampled_names@[q]@ == ns[i as int].name@);
                }
            }
        }
        if hit {
            r.push(i);
        }
        k2 = k2 + 1;
    }
    proof {
        assert(leaves@.subrange(0, leaves@.len() as int) =~= leaves@);
    }
    r
}

/// Copies a name.  Relies on `String::clone`, which returns its input
/// unchanged.
pub fn clone_name(s: &String) -> (r: String)
    ensures
        r == *s,
{
    s.clone()
}

/// Entries of a leaf-index list point at leaves.
pub proof fn lemma_leaf_indices_are_leaves(nodes: Seq<FlatNode>, walk: Seq<usize>)
    ensures
        forall|k: int|
            0 <= k < spec_leaf_indices(nodes, walk).len() ==> {
                let i = (#[trigger] spec_leaf_indices(nodes, walk)[k]) as int;
                nodes[i].left_child is None && nodes[i].right_child is None
            },
    decreases walk.len(),
{
    if walk.len() > 0 {
        lemma_leaf_indices_are_leaves(nodes, walk.drop_last());
    }
}

/// Draws `n_sampled_nodes` distinct extant leaves (all of them when fewer
/// exist): leaves of the tree that also occur in the sampled tree.
pub fn sample_random_leaves(
    flat_tree: &FlatTree,
    flat_sampled_tree: &FlatTree,
    n_sampled_nodes: usize,
    rng: &mut rand::rngs::StdRng,
) -> (r: Vec<usize>)
    requires
        wf(*flat_tree),
        wf(*flat_sampled_tree),
    ensures
        r@.len() <= n_sampled_nodes,
        r@.len() == (if n_sampled_nodes as int <= filter_extant(
            flat_tree.nodes@,
            spec_leaf_indices(
                flat_tree.nodes@,
                spec_traverse(
                    flat_tree.nodes@,
                    flat_tree.root as int,
                    TraversalOrder::PreOrder,
                    flat_tree.nodes@.len() as nat,
                ),
            ),
            flat_sampled_tree.nodes@,
            spec_leaf_indices(
                flat_sampled_tree.nodes@,
                spec_traverse(
                    flat_sampled_tree.nodes@,
                    flat_sampled_tree.root as int,
                    TraversalOrder::PreOrder,
                    flat_sampled_tree.nodes@.len() as nat,
                ),
            ),
        ).len() {
            n_sampled_nodes as int
        } else {
            filter_extant(
                flat_tree.nodes@,
                spec_leaf_indices(
                    flat_tree.nodes@,
                    spec_traverse(
                        flat_tree.nodes@,
                        flat_tree.root as int,
                        TraversalOrder::PreOrder,
                        flat_tree.nodes@.len() as nat,
                    ),
                ),
                flat_sampled_tree.nodes@,
                spec_leaf_indices(
                    flat_sampled_tree.nodes@,
                    spec_traverse(
                        flat_sampled_tree.nodes@,
                        flat_sampled_tree.root as int,
                        TraversalOrder::PreOrder,
                        flat_sampled_tree.nodes@.len() as nat,
                    ),
                ),
            ).len() as int
        }),
        forall|k: int|
            0 <= k < r@.len() ==> filter_extant(
                flat_tree.nodes@,
                spec_leaf_indices(
                    flat_tree.nodes@,
                    spec_traverse(
                        flat_tree.nodes@,
                        flat_tree.root as int,
                        TraversalOrder::PreOrder,
                        flat_tree.nodes@.len() as nat,
                    ),
                ),
                flat_sampled_tree.nodes@,
                spec_leaf_indices(
                    flat_sampled_tree.nodes@,
                    spec_traverse(
                        flat_sampled_tree.nodes@,
                        flat_sampled_tree.root as int,
                        TraversalOrder::PreOrder,
                        flat_sampled_tree.nodes@.len() as nat,
                    ),
                ),
            ).contains(#[trigger] r@[k]),
        forall|k: int| 0 <= k < r@.len() ==> (#[trigger] r@[k]) < flat_tree.nodes@.len()
            && flat_tree.nodes@[r@[k] as int].left_child is None
            && flat_tree.nodes@[r@[k] as int].right_child is None,
{
    let leaves = find_all_extant_leaves(flat_tree, flat_sampled_tree);
    let picked = choose_multiple_usize(&leaves, n_sampled_nodes, rng);
    proof {
        assert forall|k: int|
            0 <= k < picked@.len() implies (#[trigger] picked@[k]) < flat_tree.nodes@.len()
            && flat_tree.nodes@[picked@[k] as int].left_child is None
            && flat_tree.nodes@[picked@[k] as int].right_child is None by {
            assert(leaves@.contains(picked@[k]));
            let q = choose|q: int| 0 <= q < leaves@.len() && leaves@[q] == picked@[k];
        }
    }
    picked
}

/// The listed leaves that are not among the sampled ones: the complement to
/// prune away.
pub fn leaves_to_be_removed(leaves: &Vec<usize>, sampled_leaves: &Vec<usize>) -> (r: Vec<usize>)
    ensures
        r@ == filter_not_in(leaves@, sampled_leaves@),
        forall|k: int| 0 <= k < r@.len() ==> leaves@.contains(#[trigger] r@[k])
            && !sampled_leaves@.contains(r@[k]),
        forall|v: usize| leaves@.contains(v) && !sampled_leaves@.contains(v) ==> r@.contains(v),
{
    let mut r: Vec<usize> = Vec::new();
    let mut k: usize = 0;
    while k < leaves.len()
        invariant
            k <= leaves@.len(),
            r@ == filter_not_in(leaves@.subrange(0, k as int), sampled_leaves@),
            forall|q: int| 0 <= q < r@.len() ==> leaves@.contains(#[trigger] r@[q])
                && !sampled_leaves@.contains(r@[q]),
            forall|q: int|
                0 <= q < k && !sampled_leaves@.contains(#[trigger] leaves@[q]) ==> r@.contains(
                    leaves@[q],
                ),
        decreases leaves@.len() - k,
    {
        proof {
            assert(leaves@.subrange(0, k + 1).drop_last() =~= leaves@.subrange(0, k as int));
            assert(leaves@.subrange(0, k + 1).last() == leaves@[k as int]);
        }
        let v = leaves[k];
        if !contains_index(sampled_leaves, v) {
            let ghost before = r@;
            r.push(v);
            proof {
                assert(leaves@[k as int] == v);
                assert(leaves@.contains(v));
                assert(r@[r@.len() - 1] == v);
                assert forall|q: int|
                    0 <= q < k + 1 && !sampled_leaves@.contains(
                        #[trigger] leaves@[q],
                    ) implies r@.contains(leaves@[q]) by {
                    if q < k {
                        let w = choose|w: int| 0 <= w < before.len() && before[w] == leaves@[q];
                        assert(r@[w] == leaves@[q]);
                    } else {
                        assert(r@[r@.len() - 1] == leaves@[q]);
                    }
                }
            }
        } else {
            proof {
                assert(leaves@[k as int] == v);
            }
        }
        k = k + 1;
    }
    proof {
        assert(leaves@.subrange(0, leaves@.len() as int) =~= leaves@);
        assert forall|v: usize|
            leaves@.contains(v) && !sampled_leaves@.contains(v) implies r@.contains(v) by {
            let q = choose|q: int| 0 <= q < leaves@.len() && leaves@[q] == v;
        }
    }
    r
}

fn contains_index(v: &Vec<usize>, x: usize) -> (r: bool)
    ensures
        r == v@.contains(x),
{
    let mut k: usize = 0;
    while k < v.len()
        invariant
            k <= v@.len(),
            forall|q: int| 0 <= q < k ==> (#[trigger] v@[q]) != x,
        decreases v@.len() - k,
    {
        if v[k] == x {
            proof {
                assert(v@[k as int] == x);
            }
            return true;
        }
        k = k + 1;
    }
    false
}

/// Names, depths and lengths agree slot by slot.
pub open spec fn same_payload(a: Seq<FlatNode>, b: Seq<FlatNode>) -> bool {
    &&& a.len() == b.len()
    &&& forall|x: int| 0 <= x < a.len() ==> (#[trigger] a[x]).name == b[x].name && a[x].depth
        == b[x].depth && a[x].length == b[x].length
}

/// The arena and root after pruning the first `k` listed leaves in turn: a
/// listed slot that is not a prunable leaf when its turn comes is skipped.
pub open spec fn spec_remove_all(
    nodes: Seq<FlatNode>,
    root: int,
    list: Seq<usize>,
    k: int,
) -> (Seq<FlatNode>, int)
    decreases k,
{
    if k <= 0 {
        (nodes, root)
    } else {
        let prev = spec_remove_all(nodes, root, list, k - 1);
        let i = list[k - 1] as int;
        if crate::surgery::can_remove_at(prev.0, prev.1, i) {
            (
                crate::surgery::remove_result_nodes(prev.0, i),
                crate::surgery::remove_result_root_at(prev.0, prev.1, i),
            )
        } else {
            prev
        }
    }
}

/// Prunes every listed leaf that is still prunable when its turn comes;
/// a listed slot that is no longer an attached leaf is left alone.  The
/// result is exactly the fold of single prunes over the list; only links
/// change — every name, depth and length stays — and depths stay monotone.
pub fn remove_all_unsampled(flat_tree: &mut FlatTree, list_indexes: &Vec<usize>)
    requires
        wf(*old(flat_tree)),
    ensures
        wf(*final(flat_tree)),
        final(flat_tree).nodes@ == spec_remove_all(
            old(flat_tree).nodes@,
            old(flat_tree).root as int,
            list_indexes@,
            list_indexes@.len() as int,
        ).0,
        final(flat_tree).root as int == spec_remove_all(
            old(flat_tree).nodes@,
            old(flat_tree).root as int,
            list_indexes@,
            list_indexes@.len() as int,
        ).1,
        same_payload(final(flat_tree).nodes@, old(flat_tree).nodes@),
        crate::tree::depths_present_monotone(old(flat_tree).nodes@)
            ==> crate::tree::depths_present_monotone(final(flat_tree).nodes@),
{
    let len_bound = flat_tree.nodes.len();
    proof {
        assert(old(flat_tree).nodes@.len() == len_bound);
    }
    let mut k: usize = 0;
    while k < list_indexes.len()
        invariant
            wf(*flat_tree),
            old(flat_tree).nodes@.len() <= usize::MAX,
            k <= list_indexes@.len(),
            flat_tree.nodes@ == spec_remove_all(
                old(flat_tree).nodes@,
                old(flat_tree).root as int,
                list_indexes@,
                k as int,
            ).0,
            flat_tree.root as int == spec_remove_all(
                old(flat_tree).nodes@,
                old(flat_tree).root as int,
                list_indexes@,
                k as int,
            ).1,
            same_payload(flat_tree.nodes@, old(flat_tree).nodes@),
            crate::tree::depths_present_monotone(old(flat_tree).nodes@)
                ==> crate::tree::depths_present_monotone(flat_tree.nodes@),
        decreases list_indexes@.len() - k,
    {
        let idx = list_indexes[k];
        if can_remove_now(flat_tree, idx) {
            let ghost before = flat_tree.nodes@;
            let ghost root_before = flat_tree.root as int;
            proof {
                if crate::tree::depths_present_monotone(old(flat_tree).nodes@) {
                    crate::surgery::lemma_remove_keeps_monotone(before, root_before, idx as int);
                }
            }
            remove_node(flat_tree, idx);
            proof {
                assert(same_payload(flat_tree.nodes@, before));
            }
        }
        k = k + 1;
    }
}

/// Whether the leaf-prune precondition holds right now.
fn can_remove_now(flat_tree: &FlatTree, idx: usize) -> (r: bool)
    requires
        wf(*flat_tree),
    ensures
        r == (idx < flat_tree.nodes@.len() && can_remove(*flat_tree, idx as int)),
{
    let n = flat_tree.nodes.len();
    if idx >= n {
        return false;
    }
    if flat_tree.nodes[idx].left_child.is_some() || flat_tree.nodes[idx].right_child.is_some() {
        return false;
    }
    match flat_tree.nodes[idx].parent {
        None => false,
        Some(p) => {
            proof {
                assert(crate::tree::links_ok_at(flat_tree.nodes@, idx as int));
            }
            if flat_tree.nodes[p].parent.is_none() && p != flat_tree.root {
                false
            } else {
                true
            }
        },
    }
}

/// The leaves of a gene tree whose names occur in the given list, in walk
/// order.
pub fn find_leaves_in_gene_tree(flat_gene_tree: &FlatTree, leaf_names: &Vec<String>) -> (r: Vec<
    usize,
>)
    requires
        wf(*flat_gene_tree),
    ensures
        r@ == filter_named(
            flat_gene_tree.nodes@,
            spec_leaf_indices(
                flat_gene_tree.nodes@,
                spec_traverse(
                    flat_gene_tree.nodes@,
                    flat_gene_tree.root as int,
                    TraversalOrder::PreOrder,
                    flat_gene_tree.nodes@.len() as nat,
                ),
            ),
            leaf_names@,
        ),
        forall|k: int| 0 <= k < r@.len() ==> (#[trigger] r@[k]) < flat_gene_tree.nodes@.len(),
{
    let ghost ns = flat_gene_tree.nodes@;
    let leaves = find_all_leaves(flat_gene_tree);
    let mut r: Vec<usize> = Vec::new();
    let mut k: usize = 0;
    while k < leaves.len()
        invariant
            ns == flat_gene_tree.nodes@,
            k <= leaves@.len(),
            forall|q: int| 0 <= q < leaves@.len() ==> (#[trigger] leaves@[q]) < ns.len(),
            r@ == filter_named(ns, leaves@.subrange(0, k as int), leaf_names@),
            forall|q: int| 0 <= q < r@.len() ==> (#[trigger] r@[q]) < ns.len(),
        decreases leaves@.len() - k,
    {
        proof {
            assert(leaves@.subrange(0, k + 1).drop_last() =~= leaves@.subrange(0, k as int));
            assert(leaves@.subrange(0, k + 1).last() == leaves@[k as int]);
        }
        let i = leaves[k];
        if contains_name(leaf_names, &flat_gene_tree.nodes[i].name) {
            r.push(i);
        }
        k = k + 1;
    }
    proof {
        assert(leaves@.subrange(0, leaves@.len() as int) =~= leaves@);
    }
    r
}

/// The leaves seen by a pre-order walk, each with its branch length, in walk
/// order.
pub open spec fn spec_leaf_lengths(nodes: Seq<FlatNode>, walk: Seq<usize>) -> Seq<(usize, u64)>
    decreases walk.len(),
{
    if walk.len() == 0 {
        seq![]
    } else {
        let rest = spec_leaf_lengths(nodes, walk.drop_last());
        let i = walk.last() as int;
        if nodes[i].left_child is None && nodes[i].right_child is None {
            rest + seq![(walk.last(), nodes[i].length)]
        } else {
            rest
        }
    }
}

/// The leaves with the largest branch lengths, longest first, ties in walk
/// order, the first `n_leaves` of them.
#[verifier::rlimit(100)]
#[verifier::spinoff_prover]
pub fn sample_diversified_leaves(flat_tree: &FlatTree, n_leaves: usize) -> (r: Vec<usize>)
    requires
        wf(*flat_tree),
    ensures
        ({
            let walk = spec_traverse(
                flat_tree.nodes@,
                flat_tree.root as int,
                TraversalOrder::PreOrder,
                flat_tree.nodes@.len() as nat,
            );
            let sorted = crate::traverse::spec_sort_desc(
                spec_leaf_lengths(flat_tree.nodes@, walk),
            );
            &&& r@.len() == (if n_leaves <= sorted.len() {
                n_leaves as int
            } else {
                sorted.len() as int
            })
            &&& forall|k: int| 0 <= k < r@.len() ==> r@[k] == (#[trigger] sorted[k]).0
        }),
{
    let ghost ns = flat_tree.nodes@;
    let walk = flat_tree.iter(TraversalOrder::PreOrder);
    proof {
        crate::traverse::lemma_traverse_in_range(
            ns,
            flat_tree.root as int,
            TraversalOrder::PreOrder,
            ns.len() as nat,
        );
    }
    let mut leaves: Vec<(usize, u64)> = Vec::new();
    let mut k: usize = 0;
    while k < walk.len()
        invariant
            ns == flat_tree.nodes@,
            k <= walk@.len(),
            forall|q: int| 0 <= q < walk@.len() ==> (#[trigger] walk@[q]) < ns.len(),
            leaves@ == spec_leaf_lengths(ns, walk@.subrange(0, k as int)),
        decreases walk@.len() - k,
    {
        proof {
            assert(walk@.subrange(0, k + 1).drop_last() =~= walk@.subrange(0, k as int));
            assert(walk@.subrange(0, k + 1).last() == walk@[k as int]);
        }
        let i = walk[k];
        if flat_tree.nodes[i].left_child.is_none() && flat_tree.nodes[i].right_child.is_none() {
            leaves.push((i, flat_tree.nodes[i].length));
        }
        k = k + 1;
    }
    proof {
        assert(walk@.subrange(0, walk@.len() as int) =~= walk@);
    }
    let mut sorted: Vec<(usize, u64)> = Vec::new();
    let mut k2: usize = 0;
    while k2 < leaves.len()
        invariant
            k2 <= leaves@.len(),
            sorted@ == crate::traverse::spec_sort_desc(leaves@.subrange(0, k2 as int)),
        decreases leaves@.len() - k2,
    {
        proof {
            assert(leaves@.subrange(0, k2 + 1).drop_last() =~= leaves@.subrange(0, k2 as int));
            assert(leaves@.subrange(0, k2 + 1).last() == leaves@[k2 as int]);
        }
        crate::traverse::insert_desc(&mut sorted, leaves[k2]);
        k2 = k2 + 1;
    }
    proof {
        assert(leaves@.subrange(0, leaves@.len() as int) =~= leaves@);
    }
    let mut r: Vec<usize> = Vec::new();
    let mut k3: usize = 0;
    while k3 < sorted.len() && k3 < n_leaves
        invariant
            k3 <= sorted@.len(),
            k3 <= n_leaves,
            k3 == r@.len(),
            forall|q: int| 0 <= q < r@.len() ==> r@[q] == (#[trigger] sorted@[q]).0,
        decreases sorted@.len() - k3,
    {
        r.push(sorted[k3].0);
        k3 = k3 + 1;
    }
    r
}

/// The leaves with the smallest branch lengths, shortest first, ties in walk
/// order, the first `n_leaves` of them.
#[verifier::rlimit(100)]
#[verifier::spinoff_prover]
pub fn sample_clustered_leaves(flat_tree: &FlatTree, n_leaves: usize) -> (r: Vec<usize>)
    requires
        wf(*flat_tree),
    ensures
        ({
            let walk = spec_traverse(
                flat_tree.nodes@,
                flat_tree.root as int,
                TraversalOrder::PreOrder,
                flat_tree.nodes@.len() as nat,
            );
            let sorted = crate::traverse::spec_sort_asc(spec_leaf_lengths(flat_tree.nodes@, walk));
            &&& r@.len() == (if n_leaves <= sorted.len() {
                n_leaves as int
            } else {
                sorted.len() as int
            })
            &&& forall|k: int| 0 <= k < r@.len() ==> r@[k] == (#[trigger] sorted[k]).0
        }),
{
    let ghost ns = flat_tree.nodes@;
    let walk = flat_tree.iter(TraversalOrder::PreOrder);
    proof {
        crate::traverse::lemma_traverse_in_range(
            ns,
            flat_tree.root as int,
            TraversalOrder::PreOrder,
            ns.len() as nat,
        );
    }
    let mut leaves: Vec<(usize, u64)> = Vec::new();
    let mut k: usize = 0;
    while k < walk.len()
        invariant
            ns == flat_tree.nodes@,
            k <= walk@.len(),
            forall|q: int| 0 <= q < walk@.len() ==> (#[trigger] walk@[q]) < ns.len(),
            leaves@ == spec_leaf_lengths(ns, walk@.subrange(0, k as int)),
        decreases walk@.len() - k,
    {
        proof {
            assert(walk@.subrange(0, k + 1).drop_last() =~= walk@.subrange(0, k as int));
            assert(walk@.subrange(0, k + 1).last() == walk@[k as int]);
        }
        let i = walk[k];
        if flat_tree.nodes[i].left_child.is_none() && flat_tree.nodes[i].right_child.is_none() {
            leaves.push((i, flat_tree.nodes[i].length));
        }
        k = k + 1;
    }
    proof {
        assert(walk@.subrange(0, walk@.len() as int) =~= walk@);
    }
    let mut sorted: Vec<(usize, u64)> = Vec::new();
    let mut k2: usize = 0;
    while k2 < leaves.len()
        invariant
            k2 <= leaves@.len(),
            sorted@ == crate::traverse::spec_sort_asc(leaves@.subrange(0, k2 as int)),
        decreases leaves@.len() - k2,
    {
        proof {
            assert(leaves@.subrange(0, k2 + 1).drop_last() =~= leaves@.subrange(0, k2 as int));
            assert(leaves@.subrange(0, k2 + 1).last() == leaves@[k2 as int]);
        }
        crate::traverse::insert_asc(&mut sorted, leaves[k2]);
        k2 = k2 + 1;
    }
    proof {
        assert(leaves@.subrange(0, leaves@.len() as int) =~= leaves@);
    }
    let mut r: Vec<usize> = Vec::new();
    let mut k3: usize = 0;
    while k3 < sorted.len() && k3 < n_leaves
        invariant
            k3 <= sorted@.len(),
            k3 <= n_leaves,
            k3 == r@.len(),
            forall|q: int| 0 <= q < r@.len() ==> r@[q] == (#[trigger] sorted@[q]).0,
        decreases sorted@.len() - k3,
    {
        r.push(sorted[k3].0);
        k3 = k3 + 1;
    }
    r
}

/// Counts the nodes of a recursive tree, refusing a count beyond the
/// machine range.
pub fn try_node_count(t: &Node) -> (r: Option<usize>)
    ensures
        (match r {
            Some(c) => c as nat == crate::convert::node_count(*t),
            None => crate::convert::node_count(*t) > usize::MAX,
        }),
    decreases *t,
{
    let mut total: usize = 1;
    match &t.left_child {
        Some(l) => {
            match try_node_count(l) {
                Some(c) => {
                    if c > usize::MAX - total {
                        return None;
                    }
                    total = total + c;
                },
                None => {
                    return None;
                },
            }
        },
        None => {},
    }
    match &t.right_child {
        Some(rr) => {
            match try_node_count(rr) {
                Some(c) => {
                    if c > usize::MAX - total {
                        return None;
                    }
                    total = total + c;
                },
                None => {
                    return None;
                },
            }
        },
        None => {},
    }
    Some(total)
}

/// Flattens a binary tree and assigns every node its depth from a zero-depth
/// root; refuses trees whose size or depths leave the machine range.
pub fn flatten_with_depths(node_tree: &Node) -> (r: Option<FlatTree>)
    requires
        crate::tree::node_binary(*node_tree),
    ensures
        (match r {
            Some(t) => wf(t) && t.nodes@.len() >= 1 && t.root == 0 && (forall|i: int|
                0 <= i < t.nodes@.len() ==> (#[trigger] t.nodes@[i]).depth is Some)
                && crate::tree::depths_present_monotone(t.nodes@)
                && crate::metric::same_but_depths(
                t.nodes@,
                crate::convert::spec_flatten(*node_tree, 0, None),
            ) && (forall|i: int|
                0 <= i < t.nodes@.len() ==> (#[trigger] t.nodes@[i]).depth == Some(
                    crate::tree::pdepth(t.nodes@, i) as u64,
                )),
            None => true,
        }),
        r is Some <==> (crate::convert::node_count(*node_tree) <= usize::MAX && (forall|i: int|
            0 <= i < crate::convert::spec_flatten(*node_tree, 0, None).len()
                ==> crate::tree::pdepth(crate::convert::spec_flatten(*node_tree, 0, None), i)
                <= u64::MAX)),
{
    match try_node_count(node_tree) {
        None => None,
        Some(_) => {
            let mut flat = node_tree.to_flat_tree();
            let ghost fresh = flat;
            proof {
                crate::convert::lemma_flatten_props(*node_tree, 0, None);
            }
            let ok = flat.assign_depths();
            if !ok {
                proof {
                    let ns0 = fresh.nodes@;
                    let iw = choose|i: int|
                        0 <= i < ns0.len() && crate::tree::live(fresh, i) && !(crate::tree::pdepth(
                            ns0,
                            i,
                        ) <= u64::MAX);
                    assert(!(crate::tree::pdepth(ns0, iw) <= u64::MAX));
                }
                return None;
            }
            proof {
                let ns0 = fresh.nodes@;
                assert forall|i: int| 0 <= i < ns0.len() implies crate::tree::live(fresh, i) by {
                    crate::tree::lemma_top_defined(ns0, i, ns0.len() as nat);
                    let tp = crate::tree::chain_top(ns0, i, ns0.len() as nat)->Some_0;
                    assert(crate::convert::seg_ok(ns0, 0, None, tp));
                }
                let ns1 = flat.nodes@;
                assert forall|i: int|
                    0 <= i < ns1.len() implies (#[trigger] ns1[i]).depth is Some && (
                ns1[i].parent matches Some(p) ==> ns1[p as int].depth->Some_0
                    <= ns1[i].depth->Some_0) by {
                    if ns1[i].parent is Some {
                        let p = ns1[i].parent->Some_0 as int;
                        assert(crate::tree::links_ok_at(ns0, i));
                        assert(crate::tree::links_ok_at(ns0, p));
                        assert(crate::tree::parents_in_range(ns0)) by {
                            assert forall|q: int|
                                0 <= q < ns0.len() && #[trigger] ns0[q].parent is Some implies ns0[q].parent->Some_0
                                < ns0.len() by {
                                assert(crate::tree::links_ok_at(ns0, q));
                            }
                        }
                        crate::tree::lemma_path_step(ns0, i);
                        crate::tree::lemma_path_nonneg(ns0, p, ns0.len() as nat);
                        assert(ns1[i].depth == Some(crate::tree::pdepth(ns0, i) as u64));
                        assert(ns1[p].depth == Some(crate::tree::pdepth(ns0, p) as u64));
                    }
                }
                assert(crate::tree::depths_present_monotone(flat.nodes@));
                crate::metric::lemma_same_chain_pub(flat.nodes@, ns0);
                assert(crate::metric::same_but_depths(flat.nodes@, ns0));
                assert forall|i: int|
                    0 <= i < flat.nodes@.len() implies (#[trigger] flat.nodes@[i]).depth == Some(
                    crate::tree::pdepth(flat.nodes@, i) as u64,
                ) by {
                    assert(crate::tree::pdepth(flat.nodes@, i) == crate::tree::pdepth(ns0, i));
                }
            }
            Some(flat)
        },
    }
}

/// Everything the transfer sampler precomputes from one dated tree: the
/// timeline subdivision, its interval widths, the per-interval live edges,
/// the rates it was built with and their per-interval sums, the cumulative
/// weights, and each interval's donor distribution.
pub struct TransferSampler {
    pub subdivision: Vec<u64>,
    pub intervals: Vec<u64>,
    pub contemporaneity: Vec<Vec<usize>>,
    pub rates: Vec<u64>,
    pub intensity: Vec<u128>,
    pub cdf: Vec<u128>,
    pub weighted: Vec<Option<WeightedU64>>,
}

/// Each interval lists exactly the edges alive on it: membership in row
/// `j` is the timeline condition of the contemporaneity index.
pub open spec fn contempo_matches(
    ns: Seq<FlatNode>,
    sub: Seq<u64>,
    c: Seq<Vec<usize>>,
) -> bool {
    forall|j: int, i: int|
        #![trigger c[j], crate::metric::edge_start(ns, i)]
        0 <= j < c.len() && 0 <= i < ns.len() ==> (c[j]@.contains(i as usize) <==> (1 <= j
            && crate::metric::edge_start(ns, i) <= sub[j - 1] && sub[j - 1]
            < crate::metric::edge_end(ns, i)))
}

/// What makes a sampler the sampler *of* the given tree: the subdivision is
/// the tree's own depth grid with every edge on it, the intervals are its
/// gaps, each interval lists exactly the edges alive on it, the intensities
/// are those edges' summed rates, the cumulative weights are the running
/// interval-times-intensity sums with a positive total, and each interval's
/// distribution carries its members' rates.
pub open spec fn sampler_wf(s: TransferSampler, t: FlatTree) -> bool {
    let ns = t.nodes@;
    let sub = s.subdivision@;
    let m = sub.len() as int;
    &&& crate::metric::is_subdivision_of(ns, sub)
    &&& crate::metric::times_on_grid(ns, sub)
    &&& m >= 1
    &&& s.intervals@.len() == m
    &&& s.intervals@[0] == 0
    &&& forall|j: int| 0 < j < m ==> #[trigger] s.intervals@[j] == sub[j] - sub[j - 1]
    &&& s.contemporaneity@.len() == m
    &&& forall|j: int| 0 <= j < m ==> crate::metric::strictly_increasing_idx(
        (#[trigger] s.contemporaneity@[j])@,
    )
    &&& contempo_matches(ns, sub, s.contemporaneity@)
    &&& forall|j: int, v: usize| 0 <= j < m && #[trigger] s.contemporaneity@[j]@.contains(v) ==> v
        < ns.len()
    &&& s.intensity@.len() == m
    &&& forall|j: int| 0 <= j < m ==> #[trigger] s.intensity@[j] == crate::sampler::spec_intensity(
        s.contemporaneity@[j]@,
        s.rates@,
    )
    &&& s.cdf@.len() == m
    &&& forall|j: int| 0 <= j < m ==> #[trigger] s.cdf@[j] == crate::sampler::spec_cdf_at(
        s.intervals@,
        s.intensity@,
        j,
    )
    &&& crate::sampler::cdf_matches(s.cdf@, sub, s.intensity@)
    &&& s.cdf@.last() > 0
    &&& s.weighted@.len() == m
    &&& forall|j: int|
        0 <= j < m ==> ((#[trigger] s.weighted@[j]) matches Some(w) ==> crate::rng::weights_of(w)
            == crate::sampler::spec_weights(s.contemporaneity@[j]@, s.rates@))
}

/// Every edge's two end times already occur as node depths: the timeline
/// grid is closed under edge starts, every depth present and no branch
/// longer than its depth.
pub open spec fn times_closed(ns: Seq<FlatNode>) -> bool {
    forall|q: int| 0 <= q < ns.len() ==> (#[trigger] ns[q]).depth is Some && ns[q].length
        <= ns[q].depth->Some_0 && (exists|i: int|
        0 <= i < ns.len() && (#[trigger] ns[i]).depth == Some(
            (ns[q].depth->Some_0 - ns[q].length) as u64,
        ))
}

/// On a subdivision of the arena, the on-grid check is exactly grid
/// closure.
proof fn lemma_grid_closed(ns: Seq<FlatNode>, sub: Seq<u64>)
    requires
        crate::metric::is_subdivision_of(ns, sub),
    ensures
        crate::metric::times_on_grid(ns, sub) == times_closed(ns),
{
    if crate::metric::times_on_grid(ns, sub) {
        assert forall|q: int| 0 <= q < ns.len() implies (#[trigger] ns[q]).depth is Some
            && ns[q].length <= ns[q].depth->Some_0 && (exists|i: int|
            0 <= i < ns.len() && (#[trigger] ns[i]).depth == Some(
                (ns[q].depth->Some_0 - ns[q].length) as u64,
            )) by {
            let v = (ns[q].depth->Some_0 - ns[q].length) as u64;
            assert(sub.contains(v));
        }
        assert(times_closed(ns));
    }
    if times_closed(ns) {
        assert forall|q: int| 0 <= q < ns.len() implies (#[trigger] ns[q]).depth is Some
            && ns[q].length <= ns[q].depth->Some_0 && sub.contains(ns[q].depth->Some_0)
            && sub.contains((ns[q].depth->Some_0 - ns[q].length) as u64) by {
            assert(ns[q].depth == Some(ns[q].depth->Some_0));
            assert(sub.contains(ns[q].depth->Some_0));
        }
        assert(crate::metric::times_on_grid(ns, sub));
    }
}

/// The timeline subdivision of an arena, as a value: the strictly
/// increasing sequence of exactly the depths that occur in it.
pub open spec fn the_subdivision(ns: Seq<FlatNode>) -> Seq<u64> {
    choose|sub: Seq<u64>| crate::metric::is_subdivision_of(ns, sub)
}

/// Live-edge rows over a subdivision, as bare index sequences: row `j`
/// holds exactly the in-range nodes whose edge spans the interval's start,
/// in increasing order, and nothing out of range.
pub open spec fn contempo_rows_shape(
    ns: Seq<FlatNode>,
    sub: Seq<u64>,
    rows: Seq<Seq<usize>>,
) -> bool {
    &&& rows.len() == sub.len()
    &&& forall|j: int| 0 <= j < rows.len() ==> crate::metric::strictly_increasing_idx(
        #[trigger] rows[j],
    )
    &&& forall|j: int, i: int|
        #![trigger rows[j], crate::metric::edge_start(ns, i)]
        0 <= j < rows.len() && 0 <= i < ns.len() ==> (rows[j].contains(i as usize) <==> (1 <= j
            && crate::metric::edge_start(ns, i) <= sub[j - 1] && sub[j - 1]
            < crate::metric::edge_end(ns, i)))
    &&& forall|j: int, v: usize| 0 <= j < rows.len() && #[trigger] rows[j].contains(v) ==> v
        < ns.len()
}

/// The live-edge rows of an arena over a subdivision, as a value.
pub open spec fn the_rows(ns: Seq<FlatNode>, sub: Seq<u64>) -> Seq<Seq<usize>> {
    choose|rows: Seq<Seq<usize>>| contempo_rows_shape(ns, sub, rows)
}

/// Rows of one shape over one arena and subdivision are unique.
proof fn lemma_rows_unique(
    ns: Seq<FlatNode>,
    sub: Seq<u64>,
    r1: Seq<Seq<usize>>,
    r2: Seq<Seq<usize>>,
)
    requires
        contempo_rows_shape(ns, sub, r1),
        contempo_rows_shape(ns, sub, r2),
    ensures
        r1 == r2,
{
    assert forall|j: int| 0 <= j < r1.len() implies r1[j] == r2[j] by {
        assert forall|v: usize| #[trigger] r1[j].contains(v) <==> #[trigger] r2[j].contains(
            v,
        ) by {
            if r1[j].contains(v) {
                assert(v < ns.len());
                let es = crate::metric::edge_start(ns, v as int);
                assert(r1[j].contains((v as int) as usize));
                assert(1 <= j && es <= sub[j - 1] && sub[j - 1] < crate::metric::edge_end(
                    ns,
                    v as int,
                ));
                assert(r2[j].contains(v));
            }
            if r2[j].contains(v) {
                assert(v < ns.len());
                let es = crate::metric::edge_start(ns, v as int);
                assert(r2[j].contains((v as int) as usize));
                assert(1 <= j && es <= sub[j - 1] && sub[j - 1] < crate::metric::edge_end(
                    ns,
                    v as int,
                ));
                assert(r1[j].contains(v));
            }
        }
        crate::metric::lemma_idx_seq_unique(r1[j], r2[j]);
    }
    assert(r1 =~= r2);
}

/// The timeline's total weight under the given rates: the summed
/// width-times-intensity products over the canonical subdivision and rows.
#[verifier::opaque]
pub open spec fn timeline_total(ns: Seq<FlatNode>, rates: Seq<u64>) -> int {
    let sub = the_subdivision(ns);
    let rows = the_rows(ns, sub);
    let it = Seq::new(
        rows.len(),
        |j: int| crate::sampler::spec_intensity(rows[j], rates) as u128,
    );
    crate::sampler::spec_cdf_at(crate::metric::diffs(sub), it, sub.len() - 1)
}

/// The inputs on which the sampler build is owed success: a non-empty
/// arena whose every edge end lies on its depth grid, and a timeline whose
/// total weight is positive and fits the wide machine range.
#[verifier::opaque]
pub open spec fn sampler_supported(ns: Seq<FlatNode>, rates: Seq<u64>) -> bool {
    &&& ns.len() > 0
    &&& times_closed(ns)
    &&& 0 < timeline_total(ns, rates) <= u128::MAX
}

/// Concrete timeline parts are the canonical ones, and the total weight of
/// the arena is the last cumulative sum over them.
proof fn lemma_total_of_parts(
    ns: Seq<FlatNode>,
    rates: Seq<u64>,
    sub: Seq<u64>,
    iv: Seq<u64>,
    rows: Seq<Seq<usize>>,
    it: Seq<u128>,
)
    requires
        crate::metric::is_subdivision_of(ns, sub),
        sub.len() >= 1,
        contempo_rows_shape(ns, sub, rows),
        iv.len() == sub.len(),
        iv[0] == 0,
        forall|j: int| 0 < j < iv.len() ==> #[trigger] iv[j] == sub[j] - sub[j - 1],
        it.len() == sub.len(),
        forall|j: int| 0 <= j < it.len() ==> #[trigger] it[j] == crate::sampler::spec_intensity(
            rows[j],
            rates,
        ),
    ensures
        ns.len() > 0,
        the_subdivision(ns) == sub,
        the_rows(ns, sub) == rows,
        timeline_total(ns, rates) == crate::sampler::spec_cdf_at(iv, it, sub.len() - 1),
{
    reveal(crate::pipeline::timeline_total);
    let csub = the_subdivision(ns);
    assert(crate::metric::is_subdivision_of(ns, csub)) by {
        assert(crate::metric::is_subdivision_of(ns, sub));
    }
    assert forall|v: u64| #[trigger] csub.contains(v) <==> #[trigger] sub.contains(v) by {
        assert(csub.contains(v) <==> exists|i: int|
            0 <= i < ns.len() && (#[trigger] ns[i]).depth == Some(v));
        assert(sub.contains(v) <==> exists|i: int|
            0 <= i < ns.len() && (#[trigger] ns[i]).depth == Some(v));
    }
    crate::metric::lemma_subdivision_unique(csub, sub);
    let crows = the_rows(ns, sub);
    assert(contempo_rows_shape(ns, sub, crows)) by {
        assert(contempo_rows_shape(ns, sub, rows));
    }
    lemma_rows_unique(ns, sub, crows, rows);
    assert(sub.contains(sub[0]));
    assert(ns.len() > 0);
    assert(crate::metric::diffs(sub) =~= iv);
    let cit = Seq::new(
        rows.len(),
        |j: int| crate::sampler::spec_intensity(rows[j], rates) as u128,
    );
    assert forall|j: int| 0 <= j < it.len() implies cit[j] == it[j] by {
        assert(it[j] == crate::sampler::spec_intensity(rows[j], rates));
    }
    assert(cit =~= it);
}

/// The parts a sampler is built from canonicalize: the arena's grid is
/// closed and non-empty, and the last cumulative sum over the parts is the
/// arena's timeline total.
#[verifier::rlimit(100)]
#[verifier::spinoff_prover]
proof fn lemma_parts_canonical(
    ns: Seq<FlatNode>,
    rates: Seq<u64>,
    sub: Seq<u64>,
    iv: Seq<u64>,
    c: Seq<Vec<usize>>,
    it: Seq<u128>,
)
    requires
        crate::metric::is_subdivision_of(ns, sub),
        crate::metric::times_on_grid(ns, sub),
        sub.len() >= 1,
        iv.len() == sub.len(),
        iv[0] == 0,
        forall|j: int| 0 < j < iv.len() ==> #[trigger] iv[j] == sub[j] - sub[j - 1],
        c.len() == sub.len(),
        forall|j: int| 0 <= j < c.len() ==> crate::metric::strictly_increasing_idx(
            (#[trigger] c[j])@,
        ),
        contempo_matches(ns, sub, c),
        forall|j: int, v: usize| 0 <= j < c.len() && #[trigger] c[j]@.contains(v) ==> v < ns.len(),
        it.len() == sub.len(),
        forall|j: int| 0 <= j < it.len() ==> #[trigger] it[j] == crate::sampler::spec_intensity(
            c[j]@,
            rates,
        ),
    ensures
        sampler_supported(ns, rates) == (0 < crate::sampler::spec_cdf_at(iv, it, sub.len() - 1)
            <= u128::MAX),
{
    reveal(crate::pipeline::sampler_supported);
    let rows = c.map_values(|row: Vec<usize>| row@);
    assert(contempo_rows_shape(ns, sub, rows)) by {
        assert forall|j: int| 0 <= j < rows.len() implies crate::metric::strictly_increasing_idx(
            #[trigger] rows[j],
        ) by {
            assert(rows[j] == c[j]@);
        }
        assert forall|j: int, i: int|
            #![trigger rows[j], crate::metric::edge_start(ns, i)]
            0 <= j < rows.len() && 0 <= i < ns.len() implies (rows[j].contains(i as usize) <==> (1
            <= j && crate::metric::edge_start(ns, i) <= sub[j - 1] && sub[j - 1]
            < crate::metric::edge_end(ns, i))) by {
            assert(rows[j] == c[j]@);
        }
        assert forall|j: int, v: usize|
            0 <= j < rows.len() && #[trigger] rows[j].contains(v) implies v < ns.len() by {
            assert(rows[j] == c[j]@);
            assert(c[j]@.contains(v));
        }
    }
    assert forall|j: int| 0 <= j < it.len() implies #[trigger] it[j]
        == crate::sampler::spec_intensity(rows[j], rates) by {
        assert(rows[j] == c[j]@);
    }
    lemma_total_of_parts(ns, rates, sub, iv, rows, it);
    lemma_grid_closed(ns, sub);
    assert(ns.len() > 0 && times_closed(ns));
}

/// An empty arena, or one with an edge end off the grid, supports no
/// sampler.
proof fn lemma_unsupported_degenerate(ns: Seq<FlatNode>, rates: Seq<u64>)
    requires
        !(ns.len() > 0 && times_closed(ns)),
    ensures
        !sampler_supported(ns, rates),
{
    reveal(crate::pipeline::sampler_supported);
}

/// Copies a rate table.
fn copy_u64s(v: &Vec<u64>) -> (r: Vec<u64>)
    ensures
        r@ == v@,
{
    let mut r: Vec<u64> = Vec::new();
    let mut k: usize = 0;
    while k < v.len()
        invariant
            k <= v@.len(),
            r@ == v@.subrange(0, k as int),
        decreases v@.len() - k,
    {
        r.push(v[k]);
        proof {
            assert(r@ =~= v@.subrange(0, k + 1));
        }
        k = k + 1;
    }
    proof {
        assert(v@.subrange(0, v@.len() as int) =~= v@);
    }
    r
}

/// The interval widths of a subdivision: zero first, then each gap.
fn diffs_of(sub: &Vec<u64>) -> (r: Vec<u64>)
    requires
        sub@.len() >= 1,
        crate::metric::strictly_increasing(sub@),
    ensures
        r@.len() == sub@.len(),
        r@[0] == 0,
        forall|j: int| 1 <= j < r@.len() ==> #[trigger] r@[j] == sub@[j] - sub@[j - 1],
{
    let m = sub.len();
    let mut intervals: Vec<u64> = Vec::new();
    intervals.push(0);
    let mut k: usize = 1;
    while k < m
        invariant
            m == sub@.len(),
            crate::metric::strictly_increasing(sub@),
            1 <= k <= m,
            intervals@.len() == k,
            intervals@[0] == 0,
            forall|j: int| 1 <= j < k ==> #[trigger] intervals@[j] == sub@[j] - sub@[j - 1],
        decreases m - k,
    {
        let w = sub[k] - sub[k - 1];
        intervals.push(w);
        k = k + 1;
    }
    intervals
}

/// Cumulative weights built over the subdivision's interval widths couple
/// with the subdivision itself.
proof fn lemma_sampler_glue(iv: Seq<u64>, it: Seq<u128>, c: Seq<u128>, sub: Seq<u64>)
    requires
        iv.len() == sub.len(),
        it.len() == sub.len(),
        c.len() == sub.len(),
        sub.len() >= 1,
        crate::metric::strictly_increasing(sub),
        iv[0] == 0,
        forall|j: int| 1 <= j < iv.len() ==> #[trigger] iv[j] == sub[j] - sub[j - 1],
        forall|j: int| 0 <= j < c.len() ==> #[trigger] c[j] == crate::sampler::spec_cdf_at(
            iv,
            it,
            j,
        ),
        forall|j: int| 0 < j < c.len() ==> c[j - 1] <= #[trigger] c[j],
    ensures
        crate::sampler::cdf_matches(c, sub, it),
{
    crate::sampler::lemma_pairwise_from_adjacent(c);
    assert(c[0] == crate::sampler::spec_cdf_at(iv, it, 0));
    assert(iv[0] * it[0] == 0) by (nonlinear_arith)
        requires
            iv[0] == 0,
    ;
    assert(crate::sampler::spec_cdf_at(iv, it, -1) == 0);
    assert(c[0] == 0);
    assert forall|q: int| 0 < q < c.len() implies #[trigger] c[q] - c[q - 1] == (sub[q] - sub[q
        - 1]) * it[q] by {
        assert(c[q] == crate::sampler::spec_cdf_at(iv, it, q));
        assert(c[q - 1] == crate::sampler::spec_cdf_at(iv, it, q - 1));
        assert(iv[q] == sub[q] - sub[q - 1]);
    }
}

/// Finishes the sampler from parts whose relation to the tree is already
/// established: builds each interval's donor distribution and packs the
/// record.
#[verifier::rlimit(100)]
#[verifier::spinoff_prover]
fn assemble_sampler(
    flat_tree: &FlatTree,
    subdivision: Vec<u64>,
    intervals: Vec<u64>,
    contemporaneity: Vec<Vec<usize>>,
    intensity: Vec<u128>,
    cdf: Vec<u128>,
    transfer_rates: &Vec<u64>,
) -> (r: TransferSampler)
    requires
        crate::metric::is_subdivision_of(flat_tree.nodes@, subdivision@),
        crate::metric::times_on_grid(flat_tree.nodes@, subdivision@),
        subdivision@.len() >= 1,
        intervals@.len() == subdivision@.len(),
        intervals@[0] == 0,
        forall|j: int| 0 < j < intervals@.len() ==> #[trigger] intervals@[j] == subdivision@[j]
            - subdivision@[j - 1],
        contemporaneity@.len() == subdivision@.len(),
        forall|j: int| 0 <= j < contemporaneity@.len() ==> crate::metric::strictly_increasing_idx(
            (#[trigger] contemporaneity@[j])@,
        ),
        contempo_matches(flat_tree.nodes@, subdivision@, contemporaneity@),
        forall|j: int, v: usize| 0 <= j < contemporaneity@.len() && #[trigger] contemporaneity@[j]@.contains(
            v,
        ) ==> v < flat_tree.nodes@.len(),
        forall|j: int| 0 <= j < contemporaneity@.len() ==> (#[trigger] contemporaneity@[j])@.len()
            <= u64::MAX,
        intensity@.len() == subdivision@.len(),
        forall|j: int| 0 <= j < intensity@.len() ==> #[trigger] intensity@[j]
            == crate::sampler::spec_intensity(contemporaneity@[j]@, transfer_rates@),
        cdf@.len() == subdivision@.len(),
        forall|j: int| 0 <= j < cdf@.len() ==> #[trigger] cdf@[j] == crate::sampler::spec_cdf_at(
            intervals@,
            intensity@,
            j,
        ),
        forall|j: int| 0 < j < cdf@.len() ==> cdf@[j - 1] <= #[trigger] cdf@[j],
        cdf@.last() > 0,
    ensures
        sampler_wf(r, *flat_tree),
        r.rates@ == transfer_rates@,
{
    let mut weighted: Vec<Option<WeightedU64>> = Vec::new();
    let mut j: usize = 0;
    while j < contemporaneity.len()
        invariant
            j <= contemporaneity@.len(),
            weighted@.len() == j,
            forall|q: int| 0 <= q < contemporaneity@.len() ==> (
            #[trigger] contemporaneity@[q])@.len() <= u64::MAX,
            forall|q: int|
                0 <= q < j ==> ((#[trigger] weighted@[q]) matches Some(w)
                    ==> crate::rng::weights_of(w) == crate::sampler::spec_weights(
                    contemporaneity@[q]@,
                    transfer_rates@,
                )),
        decreases contemporaneity@.len() - j,
    {
        if contemporaneity[j].len() >= 2 {
            let w = crate::sampler::build_weighted_index(&contemporaneity[j], transfer_rates);
            weighted.push(w);
        } else {
            weighted.push(None);
        }
        j = j + 1;
    }
    proof {
        reveal(crate::pipeline::sampler_wf);
        lemma_sampler_glue(intervals@, intensity@, cdf@, subdivision@);
    }
    let rates = copy_u64s(transfer_rates);
    TransferSampler { subdivision, intervals, contemporaneity, rates, intensity, cdf, weighted }
}

/// The timeline parts of the sampler: the subdivision, its interval widths,
/// the per-interval live edges and their summed rates.  `None` reports an
/// empty grid or an off-grid edge.
#[verifier::rlimit(100)]
#[verifier::spinoff_prover]
fn sampler_parts(flat_tree: &FlatTree, transfer_rates: &Vec<u64>) -> (r: Option<
    (Vec<u64>, Vec<u64>, Vec<Vec<usize>>, Vec<u128>),
>)
    requires
        wf(*flat_tree),
    ensures
        (match r {
            Some((sub, iv, c, it)) => {
                &&& crate::metric::is_subdivision_of(flat_tree.nodes@, sub@)
                &&& crate::metric::times_on_grid(flat_tree.nodes@, sub@)
                &&& sub@.len() >= 1
                &&& iv@.len() == sub@.len()
                &&& iv@[0] == 0
                &&& forall|j: int| 0 < j < iv@.len() ==> #[trigger] iv@[j] == sub@[j] - sub@[j - 1]
                &&& c@.len() == sub@.len()
                &&& forall|j: int| 0 <= j < c@.len()
                    ==> crate::metric::strictly_increasing_idx((#[trigger] c@[j])@)
                &&& contempo_matches(flat_tree.nodes@, sub@, c@)
                &&& forall|j: int, v: usize| 0 <= j < c@.len() && #[trigger] c@[j]@.contains(v)
                    ==> v < flat_tree.nodes@.len()
                &&& forall|j: int| 0 <= j < c@.len() ==> (#[trigger] c@[j])@.len() <= u64::MAX
                &&& it@.len() == sub@.len()
                &&& forall|j: int| 0 <= j < it@.len() ==> #[trigger] it@[j]
                    == crate::sampler::spec_intensity(c@[j]@, transfer_rates@)
            },
            None => !(flat_tree.nodes@.len() > 0 && times_closed(flat_tree.nodes@)),
        }),
{
    let subdivision = flat_tree.make_subdivision();
    let m = subdivision.len();
    if m == 0 {
        proof {
            let ns = flat_tree.nodes@;
            if ns.len() > 0 && times_closed(ns) {
                assert(ns[0].depth is Some);
                assert(ns[0].depth == Some(ns[0].depth->Some_0));
                assert(subdivision@.contains(ns[0].depth->Some_0));
                assert(false);
            }
        }
        return None;
    }
    if !check_times_on_grid(flat_tree, &subdivision) {
        proof {
            lemma_grid_closed(flat_tree.nodes@, subdivision@);
        }
        return None;
    }
    let intervals = diffs_of(&subdivision);
    let contemporaneity = flat_tree.find_contemporaneity(&subdivision);
    proof {
        assert(contempo_matches(flat_tree.nodes@, subdivision@, contemporaneity@));
    }
    // the machine bound on each row's length, made visible
    let mut jb: usize = 0;
    while jb < contemporaneity.len()
        invariant
            jb <= contemporaneity@.len(),
            forall|q: int| 0 <= q < jb ==> (#[trigger] contemporaneity@[q])@.len() <= u64::MAX,
        decreases contemporaneity@.len() - jb,
    {
        let row_len = contemporaneity[jb].len();
        proof {
            assert(contemporaneity@[jb as int]@.len() == row_len);
        }
        jb = jb + 1;
    }
    let intensity = crate::sampler::compute_interval_intensity(&contemporaneity, transfer_rates);
    Some((subdivision, intervals, contemporaneity, intensity))
}

/// Precomputes the transfer sampler of a dated tree under the given
/// per-node rates, succeeding exactly on the supported timelines: `None`
/// reports an empty arena, a missing depth or off-grid edge, a total weight
/// of zero, or one beyond the wide machine range.
#[verifier::rlimit(100)]
#[verifier::spinoff_prover]
pub fn build_transfer_sampler(flat_tree: &FlatTree, transfer_rates: &Vec<u64>) -> (r: Option<
    TransferSampler,
>)
    requires
        wf(*flat_tree),
    ensures
        r matches Some(s) ==> sampler_wf(s, *flat_tree) && s.rates@ == transfer_rates@,
        r is Some <==> sampler_supported(flat_tree.nodes@, transfer_rates@),
{
    let ghost ns = flat_tree.nodes@;
    let ghost rates = transfer_rates@;
    let parts = sampler_parts(flat_tree, transfer_rates);
    match parts {
        None => {
            proof {
                lemma_unsupported_degenerate(ns, rates);
            }
            None
        },
        Some((subdivision, intervals, contemporaneity, intensity)) => {
            proof {
                lemma_parts_canonical(
                    ns,
                    rates,
                    subdivision@,
                    intervals@,
                    contemporaneity@,
                    intensity@,
                );
            }
            let cdf_opt = crate::sampler::make_cdf(&intervals, &intensity);
            match cdf_opt {
                None => {
                    proof {
                        assert(!sampler_supported(ns, rates));
                    }
                    None
                },
                Some(cdf) => {
                    if cdf[cdf.len() - 1] == 0 {
                        proof {
                            assert(cdf@[subdivision@.len() - 1] == crate::sampler::spec_cdf_at(
                                intervals@,
                                intensity@,
                                subdivision@.len() - 1,
                            ));
                            assert(!sampler_supported(ns, rates));
                        }
                        return None;
                    }
                    proof {
                        assert(cdf@[subdivision@.len() - 1] == crate::sampler::spec_cdf_at(
                            intervals@,
                            intensity@,
                            subdivision@.len() - 1,
                        ));
                        assert(sampler_supported(ns, rates));
                    }
                    Some(
                        assemble_sampler(
                            flat_tree,
                            subdivision,
                            intervals,
                            contemporaneity,
                            intensity,
                            cdf,
                            transfer_rates,
                        ),
                    )
                },
            }
        },
    }
}

/// Whether every edge's two end times lie on the grid, with no depth
/// missing or smaller than its branch length.
pub fn check_times_on_grid(flat_tree: &FlatTree, sub: &Vec<u64>) -> (r: bool)
    ensures
        r == crate::metric::times_on_grid(flat_tree.nodes@, sub@),
{
    let ghost ns = flat_tree.nodes@;
    let mut i: usize = 0;
    while i < flat_tree.nodes.len()
        invariant
            ns == flat_tree.nodes@,
            i <= ns.len(),
            forall|q: int| 0 <= q < i ==> (#[trigger] ns[q]).depth is Some && ns[q].length
                <= ns[q].depth->Some_0 && sub@.contains(ns[q].depth->Some_0) && sub@.contains(
                (ns[q].depth->Some_0 - ns[q].length) as u64,
            ),
        decreases ns.len() - i,
    {
        match flat_tree.nodes[i].depth {
            None => {
                return false;
            },
            Some(d) => {
                let l = flat_tree.nodes[i].length;
                if l > d {
                    return false;
                }
                if !contains_u64(sub, d) {
                    return false;
                }
                if !contains_u64(sub, d - l) {
                    return false;
                }
            },
        }
        i = i + 1;
    }
    true
}

fn contains_u64(v: &Vec<u64>, x: u64) -> (r: bool)
    ensures
        r == v@.contains(x),
{
    let mut k: usize = 0;
    while k < v.len()
        invariant
            k <= v@.len(),
            forall|q: int| 0 <= q < k ==> (#[trigger] v@[q]) != x,
        decreases v@.len() - k,
    {
        if v[k] == x {
            proof {
                assert(v@[k as int] == x);
            }
            return true;
        }
        k = k + 1;
    }
    false
}

/// A well-formed arena with present, monotone depths rebuilds into a tree
/// whose root depth is the arena root's and whose depths never decrease.
proof fn lemma_rebuild_ready(t: FlatTree)
    requires
        wf(t),
        t.nodes@.len() <= usize::MAX,
        crate::tree::depths_present_monotone(t.nodes@),
    ensures
        ({
            let rec = crate::convert::spec_to_node(
                t.nodes@,
                t.root as int,
                t.nodes@.len() as nat,
            );
            &&& rec.depth == t.nodes@[t.root as int].depth
            &&& rec.depth is Some
            &&& crate::metric::depths_monotone_from(rec, rec.depth->Some_0 as int)
        }),
{
    crate::tree::lemma_chain_bound(t.nodes@, t.root as int, t.nodes@.len() as nat);
    crate::convert::lemma_to_node_monotone(
        t.nodes@,
        t.root as int,
        t.nodes@.len() as nat,
        t.nodes@[t.root as int].depth->Some_0 as int,
    );
}

/// One draw round's record: a sorted list of admissible transfers, no
/// longer than asked for, each pair alive on a common interval of the
/// sampler with its time inside it, and the table text that lists them.
pub open spec fn sim_transfers_witness(
    t0: FlatTree,
    s: TransferSampler,
    n_transfers: int,
    csv: Seq<char>,
    trs: Seq<(usize, usize, u64)>,
) -> bool {
    &&& crate::sampler::transfers_sorted(trs)
    &&& trs.len() <= n_transfers
    &&& forall|k: int| 0 <= k < trs.len() ==> crate::surgery::can_spr(
        t0,
        (#[trigger] trs[k]).0 as int,
        trs[k].1 as int,
    ) && !crate::tree::is_ancestor_of(t0.nodes@, trs[k].0 as int, trs[k].1 as int)
        && crate::sampler::transfer_on_interval(s.contemporaneity@, s.subdivision@, trs[k])
    &&& csv == crate::sampler::spec_transfers_csv(t0.nodes@, trs)
}

/// The arena, root and verdict after re-checking and applying the first `k`
/// transfers in turn, oldest first: each move is admitted only where the
/// regraft preconditions hold on the tree *as rearranged so far*; the first
/// refused move stops the run with the prefix applied and a false verdict.
pub open spec fn spec_apply_all(
    nodes: Seq<FlatNode>,
    root: int,
    trs: Seq<(usize, usize, u64)>,
    k: int,
) -> (Seq<FlatNode>, int, bool)
    decreases k,
{
    if k <= 0 {
        (nodes, root, true)
    } else {
        let prev = spec_apply_all(nodes, root, trs, k - 1);
        if !prev.2 {
            prev
        } else {
            let tr = trs[k - 1];
            let d = tr.0 as int;
            let r = tr.1 as int;
            if crate::surgery::can_spr_at(prev.0, prev.1, d, r) && !crate::tree::is_ancestor_of(
                prev.0,
                d,
                r,
            ) {
                (
                    crate::surgery::spr_result_nodes(prev.0, d, r, Some(tr.2)),
                    crate::surgery::spr_result_root_at(prev.0, prev.1, d, r),
                    true,
                )
            } else {
                (prev.0, prev.1, false)
            }
        }
    }
}

/// A refused move ends the fold: everything after it changes nothing.
proof fn lemma_apply_all_stuck(
    nodes: Seq<FlatNode>,
    root: int,
    trs: Seq<(usize, usize, u64)>,
    j: int,
    m: int,
)
    requires
        0 <= j <= m,
        !spec_apply_all(nodes, root, trs, j).2,
    ensures
        spec_apply_all(nodes, root, trs, m) == spec_apply_all(nodes, root, trs, j),
    decreases m,
{
    if m > j {
        lemma_apply_all_stuck(nodes, root, trs, j, m - 1);
    }
}

/// Applies the transfers in order, each re-checked on the rearranged tree;
/// a refused move stops the run.  The result is exactly the fold of the
/// dated regrafts over the list, verdict included.
fn apply_transfers(flat_tree: &mut FlatTree, transfers: &Vec<(usize, usize, u64)>) -> (ok: bool)
    requires
        wf(*old(flat_tree)),
    ensures
        wf(*final(flat_tree)),
        ({
            let run = spec_apply_all(
                old(flat_tree).nodes@,
                old(flat_tree).root as int,
                transfers@,
                transfers@.len() as int,
            );
            &&& final(flat_tree).nodes@ == run.0
            &&& final(flat_tree).root as int == run.1
            &&& ok == run.2
        }),
        transfers@.len() == 0 ==> ok && *final(flat_tree) == *old(flat_tree),
{
    let ghost ns0 = old(flat_tree).nodes@;
    let ghost root0 = old(flat_tree).root as int;
    let mut k: usize = 0;
    while k < transfers.len()
        invariant
            wf(*flat_tree),
            k <= transfers@.len(),
            ns0 == old(flat_tree).nodes@,
            root0 == old(flat_tree).root as int,
            spec_apply_all(ns0, root0, transfers@, k as int).0 == flat_tree.nodes@,
            spec_apply_all(ns0, root0, transfers@, k as int).1 == flat_tree.root as int,
            spec_apply_all(ns0, root0, transfers@, k as int).2,
            transfers@.len() == 0 ==> *flat_tree == *old(flat_tree),
        decreases transfers@.len() - k,
    {
        let ghost prev = spec_apply_all(ns0, root0, transfers@, k as int);
        let (d, rcv, t) = transfers[k];
        proof {
            assert(transfers@[k as int] == (d, rcv, t));
        }
        if transfer_allowed(flat_tree, d, rcv) {
            let ghost tprev = *flat_tree;
            spr(flat_tree, d, rcv, t);
            proof {
                assert(crate::surgery::can_spr_at(prev.0, prev.1, d as int, rcv as int));
                assert(spec_apply_all(ns0, root0, transfers@, k + 1) == (
                    crate::surgery::spr_result_nodes(prev.0, d as int, rcv as int, Some(t)),
                    crate::surgery::spr_result_root_at(prev.0, prev.1, d as int, rcv as int),
                    true,
                ));
                assert(flat_tree.nodes@ == crate::surgery::spr_result_nodes(
                    tprev.nodes@,
                    d as int,
                    rcv as int,
                    Some(t),
                ));
                assert(flat_tree.root as int == crate::surgery::spr_result_root_at(
                    tprev.nodes@,
                    tprev.root as int,
                    d as int,
                    rcv as int,
                ));
            }
        } else {
            proof {
                assert(!(crate::surgery::can_spr_at(prev.0, prev.1, d as int, rcv as int)
                    && !crate::tree::is_ancestor_of(prev.0, d as int, rcv as int)));
                assert(spec_apply_all(ns0, root0, transfers@, k + 1) == (prev.0, prev.1, false));
                lemma_apply_all_stuck(ns0, root0, transfers@, k + 1, transfers@.len() as int);
                assert(spec_apply_all(ns0, root0, transfers@, transfers@.len() as int) == (
                    prev.0,
                    prev.1,
                    false,
                ));
            }
            return false;
        }
        k = k + 1;
    }
    true
}

/// Renders a dated tree: lengths recomputed from the depths, six decimal
/// places, a trailing terminator.  Succeeds whenever the depths are present
/// and monotone; `None` otherwise.
fn render_gene_tree(flat_tree: &FlatTree) -> (r: Option<String>)
    requires
        wf(*flat_tree),
    ensures
        (match r {
            Some(nwk) => ({
                let rec = crate::convert::spec_to_node(
                    flat_tree.nodes@,
                    flat_tree.root as int,
                    flat_tree.nodes@.len() as nat,
                );
                rec.depth is Some && nwk@ == crate::newick::spec_emit(
                    crate::newick::view_node(
                        crate::metric::lengths_from_depths(rec, rec.depth->Some_0 as int),
                    ),
                ) + ";"@
            }),
            None => true,
        }),
        crate::tree::depths_present_monotone(flat_tree.nodes@) ==> r is Some,
{
    let len_bound = flat_tree.nodes.len();
    proof {
        assert(flat_tree.nodes@.len() == len_bound);
        if crate::tree::depths_present_monotone(flat_tree.nodes@) {
            lemma_rebuild_ready(*flat_tree);
        }
    }
    let reconstructed = flat_tree.to_node();
    let root_depth = match reconstructed.depth {
        Some(d) => d,
        None => {
            return None;
        },
    };
    if !check_depths_monotone(&reconstructed, root_depth) {
        return None;
    }
    let mut rec2 = reconstructed;
    rec2.depths_to_lengths(root_depth);
    let mut nwk = node_to_newick(&rec2);
    nwk.append(";");
    Some(nwk)
}

/// Some drawn transfer list both witnesses the table and, folded over the
/// input tree by [`spec_apply_all`], yields exactly the final tree with
/// every move admitted: the success story of one gene simulation.
#[verifier::opaque]
pub open spec fn sim_output_ok(
    t0: FlatTree,
    s: TransferSampler,
    n_transfers: int,
    csv: Seq<char>,
    tfin: FlatTree,
) -> bool {
    exists|trs: Seq<(usize, usize, u64)>|
        {
            let run = spec_apply_all(t0.nodes@, t0.root as int, trs, trs.len() as int);
            &&& #[trigger] sim_transfers_witness(t0, s, n_transfers, csv, trs)
            &&& run.0 == tfin.nodes@
            &&& run.1 == tfin.root as int
            &&& run.2
        }
}

/// Draws one round of transfers and renders their table.
#[verifier::rlimit(100)]
#[verifier::spinoff_prover]
fn draw_transfers(
    flat_tree: &FlatTree,
    n_transfers: usize,
    sampler: &TransferSampler,
    rng: &mut rand::rngs::StdRng,
) -> (r: (Vec<(usize, usize, u64)>, String))
    requires
        wf(*flat_tree),
        sampler_wf(*sampler, *flat_tree),
    ensures
        sim_transfers_witness(*flat_tree, *sampler, n_transfers as int, r.1@, r.0@),
{
    proof {
        reveal(crate::pipeline::sampler_wf);
        reveal(crate::pipeline::sim_transfers_witness);
    }
    let transfers = generate_transfers(
        n_transfers,
        flat_tree,
        &sampler.contemporaneity,
        &sampler.weighted,
        &sampler.cdf,
        &sampler.subdivision,
        &sampler.intensity,
        rng,
    );
    let csv = make_transfers_csv(flat_tree, &transfers);
    (transfers, csv)
}

/// Runs one gene simulation on a dated tree: draws up to `n_transfers`
/// dated transfers, renders their table, applies them oldest first, and
/// renders the resulting gene tree.  On success one and the same drawn list
/// both fills the table — sorted, admissible on the input tree, each pair
/// alive on a common interval — and, folded over the input tree by
/// [`spec_apply_all`] with every move admitted, yields the final tree,
/// whose emission with lengths recomputed from its depths is the returned
/// text.  Asking for no transfers always succeeds; `None` reports a drawn
/// move that the surgery refuses on the rearranged tree.  The tree stays
/// well formed either way.
#[verifier::rlimit(100)]
#[verifier::spinoff_prover]
pub fn one_gene_sim_to_string(
    flat_tree: &mut FlatTree,
    n_transfers: usize,
    sampler: &TransferSampler,
    rng: &mut rand::rngs::StdRng,
) -> (r: Option<(String, String)>)
    requires
        wf(*old(flat_tree)),
        crate::tree::depths_present_monotone(old(flat_tree).nodes@),
        sampler_wf(*sampler, *old(flat_tree)),
    ensures
        wf(*final(flat_tree)),
        n_transfers == 0 ==> r is Some,
        r matches Some(pair) ==> sim_output_ok(
            *old(flat_tree),
            *sampler,
            n_transfers as int,
            pair.0@,
            *final(flat_tree),
        ),
        r matches Some(pair) ==> ({
            let rec = crate::convert::spec_to_node(
                final(flat_tree).nodes@,
                final(flat_tree).root as int,
                final(flat_tree).nodes@.len() as nat,
            );
            rec.depth is Some && pair.1@ == crate::newick::spec_emit(
                crate::newick::view_node(
                    crate::metric::lengths_from_depths(rec, rec.depth->Some_0 as int),
                ),
            ) + ";"@
        }),
{
    let ghost t0 = *flat_tree;
    let (transfers, csv) = draw_transfers(flat_tree, n_transfers, sampler, rng);
    let applied = apply_transfers(flat_tree, &transfers);
    if !applied {
        proof {
            assert(transfers@.len() > 0);
            assert(n_transfers > 0);
        }
        return None;
    }
    let rendered = render_gene_tree(flat_tree);
    match rendered {
        Some(nwk) => {
            proof {
                reveal(crate::pipeline::sim_output_ok);
                assert(sim_output_ok(t0, *sampler, n_transfers as int, csv@, *flat_tree)) by {
                    let run = spec_apply_all(
                        t0.nodes@,
                        t0.root as int,
                        transfers@,
                        transfers@.len() as int,
                    );
                    assert(sim_transfers_witness(
                        t0,
                        *sampler,
                        n_transfers as int,
                        csv@,
                        transfers@,
                    ) && run.0 == flat_tree.nodes@ && run.1 == flat_tree.root as int && run.2);
                }
            }
            Some((csv, nwk))
        },
        None => {
            proof {
                if n_transfers == 0 {
                    assert(*flat_tree == t0);
                    assert(false);
                }
            }
            None
        },
    }
}

/// The inputs on which the extraction is owed success: the text parses to
/// at least one tree, at least one leaf is asked for, and every tree
/// reading as the parse (root length cleared) flattens within the machine
/// range.
#[verifier::opaque]
pub open spec fn extract_supported(chars: Seq<char>, n_extant: int) -> bool {
    &&& crate::newick::spec_parse_file(chars, 0) is Some
    &&& crate::newick::spec_parse_file(chars, 0)->Some_0.len() > 0
    &&& n_extant >= 1
    &&& forall|t: Node|
        (#[trigger] crate::newick::view_node(t)) == (crate::newick::NodeV {
            length: 0,
            ..crate::newick::spec_parse_file(chars, 0)->Some_0.last()
        }) && crate::tree::node_binary(t) ==> flatten_fits(t)
}

/// The step chain of the extant extraction, spelled out over a witness
/// parse tree `t` (the last parsed tree, root length cleared) and its dated
/// arena `ft`: the kept names are the deepest leaves, the removed names the
/// other leaves in walk order, and the text is the emission of the pruned,
/// re-lengthed tree.
pub open spec fn extract_steps(
    chars: Seq<char>,
    n_extant: int,
    nwk: Seq<char>,
    kept_names: Seq<String>,
    removed_names: Seq<String>,
    t: Node,
    ft: FlatTree,
) -> bool {
    let vs = crate::newick::spec_parse_file(chars, 0);
    let ns = ft.nodes@;
    let walk = spec_traverse(ns, 0, TraversalOrder::PreOrder, ns.len() as nat);
    let sorted = crate::traverse::spec_sort_desc(crate::traverse::spec_leaf_depths(ns, walk));
    let kcount = if n_extant <= sorted.len() {
        n_extant
    } else {
        sorted.len() as int
    };
    let kept_idx = Seq::new(kcount as nat, |k: int| sorted[k].0);
    let removed_idx = filter_not_in(spec_leaf_indices(ns, walk), kept_idx);
    let pruned = spec_remove_all(ns, 0, removed_idx, removed_idx.len() as int);
    let rt = crate::tree::chain_top(pruned.0, kept_idx[0] as int, pruned.0.len() as nat)->Some_0;
    let rec = crate::convert::spec_to_node(pruned.0, rt, pruned.0.len() as nat);
    &&& vs matches Some(trees) && trees.len() > 0 && crate::newick::view_node(t) == (
    crate::newick::NodeV { length: 0, ..trees.last() })
    &&& crate::tree::node_binary(t)
    &&& ft.root == 0
    &&& crate::metric::same_but_depths(ns, crate::convert::spec_flatten(t, 0, None))
    &&& forall|i: int| 0 <= i < ns.len() ==> (#[trigger] ns[i]).depth == Some(
        crate::tree::pdepth(ns, i) as u64,
    )
    &&& kcount >= 1
    &&& kept_names.len() == kcount
    &&& forall|k: int| 0 <= k < kcount ==> (#[trigger] kept_names[k])@ == ns[(sorted[k].0) as int].name@
    &&& removed_names.len() == removed_idx.len()
    &&& forall|k: int| 0 <= k < removed_idx.len() ==> (#[trigger] removed_names[k])@ == ns[(
    removed_idx[k]) as int].name@
    &&& rec.depth is Some
    &&& nwk == crate::newick::spec_emit(
        crate::newick::view_node(
            crate::metric::lengths_from_depths(rec, rec.depth->Some_0 as int),
        ),
    ) + ";"@
}

/// Some parse tree and arena witness the extraction.
#[verifier::opaque]
pub open spec fn extract_witness(
    chars: Seq<char>,
    n_extant: int,
    nwk: Seq<char>,
    kept_names: Seq<String>,
    removed_names: Seq<String>,
) -> bool {
    exists|t: Node, ft: FlatTree| #[trigger] extract_steps(
        chars,
        n_extant,
        nwk,
        kept_names,
        removed_names,
        t,
        ft,
    )
}

/// The extant-subtree extraction: parses a dated species tree, keeps its
/// `n_extant` deepest leaves, prunes the rest, and renders the result
/// together with the kept and the removed leaf names, all as
/// [`extract_steps`] lays out.  `None` reports a malformed text, an empty
/// selection, or times beyond the machine range.
#[verifier::rlimit(100)]
#[verifier::spinoff_prover]
pub fn extract_extant_tree(newick_chars: &Vec<char>, n_extant: usize) -> (r: Option<
    (String, Vec<String>, Vec<String>),
>)
    ensures
        r is Some ==> crate::newick::spec_parse_file(newick_chars@, 0) is Some,
        (match r {
            Some(out) => extract_witness(newick_chars@, n_extant as int, out.0@, out.1@, out.2@),
            None => true,
        }),
        extract_supported(newick_chars@, n_extant as int) ==> r is Some,
{
    let trees = newick_to_tree(newick_chars);
    match trees {
        None => {
            proof {
                reveal(crate::pipeline::extract_supported);
            }
            None
        },
        Some(mut ts) => {
            proof {
                reveal(crate::pipeline::extract_supported);
            }
            if ts.len() == 0 {
                return None;
            }
            let mut node_tree = ts.pop().unwrap();
            proof {
                assert(crate::tree::node_binary(node_tree));
            }
            let ghost parsed = node_tree;
            node_tree.zero_root_length();
            proof {
                assert(crate::newick::view_node(node_tree) == (crate::newick::NodeV {
                    length: 0,
                    ..crate::newick::view_node(parsed)
                }));
            }
            let flat_opt = flatten_with_depths(&node_tree);
            match flat_opt {
                None => {
                    proof {
                        if extract_supported(newick_chars@, n_extant as int) {
                            assert(crate::tree::node_binary(node_tree));
                            assert(false);
                        }
                    }
                    None
                },
                Some(mut flat) => {
                    let ghost ft = flat;
                    let ghost ns = flat.nodes@;
                    let len_bound = flat.nodes.len();
                    proof {
                        assert(ns.len() == len_bound);
                    }
                    let deepest = find_deepest_nodes(&flat, n_extant);
                    if deepest.len() == 0 {
                        proof {
                            if extract_supported(newick_chars@, n_extant as int) {
                                lemma_walk_has_leaf(ns, 0, ns.len() as nat);
                                lemma_leaf_depths_len(
                                    ns,
                                    spec_traverse(ns, 0, TraversalOrder::PreOrder, ns.len() as nat),
                                );
                                lemma_sort_desc_len(
                                    crate::traverse::spec_leaf_depths(
                                        ns,
                                        spec_traverse(
                                            ns,
                                            0,
                                            TraversalOrder::PreOrder,
                                            ns.len() as nat,
                                        ),
                                    ),
                                );
                                assert(false);
                            }
                        }
                        return None;
                    }
                    let leaves = find_all_leaves(&flat);
                    let removed = leaves_to_be_removed(&leaves, &deepest);
                    // record the names before the arena is rewired
                    let mut sampled_names: Vec<String> = Vec::new();
                    let mut k: usize = 0;
                    while k < deepest.len()
                        invariant
                            ns == flat.nodes@,
                            k <= deepest@.len(),
                            forall|q: int| 0 <= q < deepest@.len() ==> (#[trigger] deepest@[q])
                                < ns.len(),
                            sampled_names@.len() == k,
                            forall|q: int| 0 <= q < k ==> (#[trigger] sampled_names@[q])@ == ns[(
                            deepest@[q]) as int].name@,
                        decreases deepest@.len() - k,
                    {
                        sampled_names.push(clone_name(&flat.nodes[deepest[k]].name));
                        k = k + 1;
                    }
                    proof {
                        assert forall|q: int|
                            0 <= q < removed@.len() implies (#[trigger] removed@[q])
                            < flat.nodes@.len() by {
                            assert(leaves@.contains(removed@[q]));
                            let w = choose|w: int|
                                0 <= w < leaves@.len() && leaves@[w] == removed@[q];
                        }
                    }
                    let mut removed_names: Vec<String> = Vec::new();
                    let mut k2: usize = 0;
                    while k2 < removed.len()
                        invariant
                            ns == flat.nodes@,
                            k2 <= removed@.len(),
                            forall|q: int| 0 <= q < removed@.len() ==> (#[trigger] removed@[q])
                                < ns.len(),
                            removed_names@.len() == k2,
                            forall|q: int| 0 <= q < k2 ==> (#[trigger] removed_names@[q])@ == ns[(
                            removed@[q]) as int].name@,
                        decreases removed@.len() - k2,
                    {
                        removed_names.push(clone_name(&flat.nodes[removed[k2]].name));
                        k2 = k2 + 1;
                    }
                    remove_all_unsampled(&mut flat, &removed);
                    let kept = deepest[0];
                    if kept >= flat.nodes.len() {
                        return None;
                    }
                    match rebuild_and_render(flat, kept) {
                        Some(nwk) => {
                            proof {
                                reveal(crate::pipeline::extract_witness);
                                assert(deepest@ =~= Seq::new(
                                    deepest@.len(),
                                    |k: int|
                                        crate::traverse::spec_sort_desc(
                                            crate::traverse::spec_leaf_depths(
                                                ns,
                                                spec_traverse(
                                                    ns,
                                                    0,
                                                    TraversalOrder::PreOrder,
                                                    ns.len() as nat,
                                                ),
                                            ),
                                        )[k].0,
                                ));
                                assert(extract_steps(
                                    newick_chars@,
                                    n_extant as int,
                                    nwk@,
                                    sampled_names@,
                                    removed_names@,
                                    node_tree,
                                    ft,
                                ));
                            }
                            Some((nwk, sampled_names, removed_names))
                        },
                        None => {
                            proof {
                                assert(!crate::tree::depths_present_monotone(flat.nodes@));
                                assert(false);
                            }
                            None
                        },
                    }
                },
            }
        },
    }
}

/// Rebuilds the tree hanging from the chain top of `kept`, recomputes the
/// lengths from the depths and renders the Newick text.  `None` reports
/// depths the six-decimal form cannot carry.
fn rebuild_and_render(flat: FlatTree, kept: usize) -> (r: Option<String>)
    requires
        wf(flat),
        kept < flat.nodes@.len(),
    ensures
        (match r {
            Some(nwk) => ({
                let rt = crate::tree::chain_top(
                    flat.nodes@,
                    kept as int,
                    flat.nodes@.len() as nat,
                )->Some_0;
                let rec = crate::convert::spec_to_node(
                    flat.nodes@,
                    rt,
                    flat.nodes@.len() as nat,
                );
                rec.depth is Some && nwk@ == crate::newick::spec_emit(
                    crate::newick::view_node(
                        crate::metric::lengths_from_depths(rec, rec.depth->Some_0 as int),
                    ),
                ) + ";"@
            }),
            None => true,
        }),
        crate::tree::depths_present_monotone(flat.nodes@) ==> r is Some,
{
    let new_root = flat.find_root(kept);
    proof {
        crate::tree::lemma_top_defined(flat.nodes@, kept as int, flat.nodes@.len() as nat);
    }
    let rerooted = FlatTree { nodes: flat.nodes, root: new_root };
    proof {
        assert(crate::tree::links_ok(rerooted));
        assert(wf(rerooted));
    }
    render_gene_tree(&rerooted)
}

/// The inputs on which species sampling is owed success: both texts parse
/// to trees, at least one leaf is asked for, every matching parse tree
/// flattens within the machine range, and the flattened trees share at
/// least one extant leaf name.
#[verifier::opaque]
pub open spec fn species_sample_supported(
    species_chars: Seq<char>,
    sampled_chars: Seq<char>,
    n_sampled_nodes: int,
) -> bool {
    let vsp = crate::newick::spec_parse_file(species_chars, 0);
    let vsa = crate::newick::spec_parse_file(sampled_chars, 0);
    &&& vsp is Some && vsp->Some_0.len() > 0
    &&& vsa is Some && vsa->Some_0.len() > 0
    &&& n_sampled_nodes >= 1
    &&& forall|t: Node|
        (#[trigger] crate::newick::view_node(t)) == (crate::newick::NodeV {
            length: 0,
            ..vsp->Some_0.last()
        }) && crate::tree::node_binary(t) ==> flatten_fits(t)
    &&& forall|t: Node|
        (#[trigger] crate::newick::view_node(t)) == vsa->Some_0.last()
            && crate::tree::node_binary(t) ==> flatten_fits(t)
    &&& forall|tsp: Node, tsa: Node, ftsp: FlatTree, ftsa: FlatTree|
        #![trigger crate::newick::view_node(tsp), crate::newick::view_node(tsa), ftsp.nodes@, ftsa.nodes@]
        crate::newick::view_node(tsp) == (crate::newick::NodeV {
            length: 0,
            ..vsp->Some_0.last()
        }) && crate::newick::view_node(tsa) == vsa->Some_0.last() && flat_of(ftsp, tsp)
            && flat_of(ftsa, tsa) ==> filter_extant(
            ftsp.nodes@,
            spec_leaf_indices(
                ftsp.nodes@,
                spec_traverse(ftsp.nodes@, 0, TraversalOrder::PreOrder, ftsp.nodes@.len() as nat),
            ),
            ftsa.nodes@,
            spec_leaf_indices(
                ftsa.nodes@,
                spec_traverse(ftsa.nodes@, 0, TraversalOrder::PreOrder, ftsa.nodes@.len() as nat),
            ),
        ).len() > 0
}

/// The tree flattens and its root-path times fit the machine range.
pub open spec fn flatten_fits(t: Node) -> bool {
    crate::convert::node_count(t) <= usize::MAX && (forall|i: int|
        0 <= i < crate::convert::spec_flatten(t, 0, None).len() ==> crate::tree::pdepth(
            crate::convert::spec_flatten(t, 0, None),
            i,
        ) <= u64::MAX)
}

/// The arena is the dated flattening of the tree: pre-order links, root at
/// the first slot, depths the root-path sums.
pub open spec fn flat_of(ft: FlatTree, t: Node) -> bool {
    &&& ft.root == 0
    &&& crate::metric::same_but_depths(ft.nodes@, crate::convert::spec_flatten(t, 0, None))
    &&& forall|i: int| 0 <= i < ft.nodes@.len() ==> (#[trigger] ft.nodes@[i]).depth == Some(
        crate::tree::pdepth(ft.nodes@, i) as u64,
    )
}

/// The step chain of species sampling, over witness parse trees and arenas
/// and the drawn leaf list `kept_idx`: every kept index is an extant leaf
/// (a leaf whose name also names a leaf of the sampled tree), as many are
/// kept as asked for — all of them, when fewer exist — the removed names
/// are the other leaves in walk order, and the text is the emission of the
/// pruned, re-lengthed tree.
pub open spec fn species_sample_steps(
    species_chars: Seq<char>,
    sampled_chars: Seq<char>,
    n_sampled_nodes: int,
    nwk: Seq<char>,
    kept_names: Seq<String>,
    removed_names: Seq<String>,
    tsp: Node,
    tsa: Node,
    ftsp: FlatTree,
    ftsa: FlatTree,
    kept_idx: Seq<usize>,
) -> bool {
    let vsp = crate::newick::spec_parse_file(species_chars, 0);
    let vsa = crate::newick::spec_parse_file(sampled_chars, 0);
    let ns = ftsp.nodes@;
    let sns = ftsa.nodes@;
    let walk = spec_traverse(ns, 0, TraversalOrder::PreOrder, ns.len() as nat);
    let leaves = spec_leaf_indices(ns, walk);
    let swalk = spec_traverse(sns, 0, TraversalOrder::PreOrder, sns.len() as nat);
    let extant = filter_extant(ns, leaves, sns, spec_leaf_indices(sns, swalk));
    let removed_idx = filter_not_in(leaves, kept_idx);
    let pruned = spec_remove_all(ns, 0, removed_idx, removed_idx.len() as int);
    let rt = crate::tree::chain_top(pruned.0, kept_idx[0] as int, pruned.0.len() as nat)->Some_0;
    let rec = crate::convert::spec_to_node(pruned.0, rt, pruned.0.len() as nat);
    &&& vsp matches Some(sp_trees) && sp_trees.len() > 0 && crate::newick::view_node(tsp) == (
    crate::newick::NodeV { length: 0, ..sp_trees.last() })
    &&& vsa matches Some(sa_trees) && sa_trees.len() > 0 && crate::newick::view_node(tsa)
        == sa_trees.last()
    &&& ftsp.root == 0
    &&& crate::metric::same_but_depths(ns, crate::convert::spec_flatten(tsp, 0, None))
    &&& ftsa.root == 0
    &&& crate::metric::same_but_depths(sns, crate::convert::spec_flatten(tsa, 0, None))
    &&& kept_idx.len() >= 1
    &&& kept_idx.len() == (if n_sampled_nodes <= extant.len() {
        n_sampled_nodes
    } else {
        extant.len() as int
    })
    &&& forall|k: int| 0 <= k < kept_idx.len() ==> extant.contains(#[trigger] kept_idx[k])
    &&& kept_names.len() == kept_idx.len()
    &&& forall|k: int| 0 <= k < kept_idx.len() ==> (#[trigger] kept_names[k])@ == ns[(
    kept_idx[k]) as int].name@
    &&& removed_names.len() == removed_idx.len()
    &&& forall|k: int| 0 <= k < removed_idx.len() ==> (#[trigger] removed_names[k])@ == ns[(
    removed_idx[k]) as int].name@
    &&& rec.depth is Some
    &&& nwk == crate::newick::spec_emit(
        crate::newick::view_node(
            crate::metric::lengths_from_depths(rec, rec.depth->Some_0 as int),
        ),
    ) + ";"@
}

/// Some parse trees, arenas and draw witness the species sampling.
#[verifier::opaque]
pub open spec fn species_sample_witness(
    species_chars: Seq<char>,
    sampled_chars: Seq<char>,
    n_sampled_nodes: int,
    nwk: Seq<char>,
    kept_names: Seq<String>,
    removed_names: Seq<String>,
) -> bool {
    exists|tsp: Node, tsa: Node, ftsp: FlatTree, ftsa: FlatTree, kept_idx: Seq<usize>|
        #[trigger] species_sample_steps(
            species_chars,
            sampled_chars,
            n_sampled_nodes,
            nwk,
            kept_names,
            removed_names,
            tsp,
            tsa,
            ftsp,
            ftsa,
            kept_idx,
        )
}

/// Samples a species tree down to `n_sampled_nodes` extant leaves drawn at
/// random among those that also occur in the sampled reference tree, prunes
/// the rest, and renders the result with the kept and removed leaf names,
/// all as [`species_sample_steps`] lays out.  `None` reports malformed
/// text, an empty draw, or times beyond the machine range.
#[verifier::rlimit(100)]
#[verifier::spinoff_prover]
pub fn species_tree_sample_to_string(
    species_chars: &Vec<char>,
    sampled_chars: &Vec<char>,
    n_sampled_nodes: usize,
    rng: &mut rand::rngs::StdRng,
) -> (r: Option<(String, Vec<String>, Vec<String>)>)
    ensures
        r is Some ==> crate::newick::spec_parse_file(species_chars@, 0) is Some
            && crate::newick::spec_parse_file(sampled_chars@, 0) is Some,
        (match r {
            Some(out) => species_sample_witness(
                species_chars@,
                sampled_chars@,
                n_sampled_nodes as int,
                out.0@,
                out.1@,
                out.2@,
            ),
            None => true,
        }),
        species_sample_supported(species_chars@, sampled_chars@, n_sampled_nodes as int) ==> r
            is Some,
{
    proof {
        reveal(crate::pipeline::species_sample_supported);
    }
    let species_trees = newick_to_tree(species_chars);
    let sampled_trees = newick_to_tree(sampled_chars);
    match (species_trees, sampled_trees) {
        (Some(mut sts), Some(mut mts)) => {
            if sts.len() == 0 || mts.len() == 0 {
                return None;
            }
            let mut species_tree = sts.pop().unwrap();
            let sampled_tree = mts.pop().unwrap();
            let ghost parsed_species = species_tree;
            species_tree.zero_root_length();
            proof {
                assert(crate::newick::view_node(species_tree) == (crate::newick::NodeV {
                    length: 0,
                    ..crate::newick::view_node(parsed_species)
                }));
            }
            let flat_opt = flatten_with_depths(&species_tree);
            let flat_sampled_opt = flatten_with_depths(&sampled_tree);
            match (flat_opt, flat_sampled_opt) {
                (Some(mut flat), Some(flat_sampled)) => {
                    let ghost ftsp = flat;
                    let ghost ftsa = flat_sampled;
                    let ghost ns = flat.nodes@;
                    let sampled_leaves = sample_random_leaves(
                        &flat,
                        &flat_sampled,
                        n_sampled_nodes,
                        rng,
                    );
                    if sampled_leaves.len() == 0 {
                        proof {
                            if species_sample_supported(
                                species_chars@,
                                sampled_chars@,
                                n_sampled_nodes as int,
                            ) {
                                assert(flat_of(ftsp, species_tree));
                                assert(flat_of(ftsa, sampled_tree));
                                assert(false);
                            }
                        }
                        return None;
                    }
                    let leaves = find_all_leaves(&flat);
                    let removed = leaves_to_be_removed(&leaves, &sampled_leaves);
                    let mut sampled_names: Vec<String> = Vec::new();
                    let mut k: usize = 0;
                    while k < sampled_leaves.len()
                        invariant
                            ns == flat.nodes@,
                            k <= sampled_leaves@.len(),
                            forall|q: int| 0 <= q < sampled_leaves@.len() ==> (
                            #[trigger] sampled_leaves@[q]) < ns.len(),
                            sampled_names@.len() == k,
                            forall|q: int| 0 <= q < k ==> (#[trigger] sampled_names@[q])@ == ns[(
                            sampled_leaves@[q]) as int].name@,
                        decreases sampled_leaves@.len() - k,
                    {
                        sampled_names.push(clone_name(&flat.nodes[sampled_leaves[k]].name));
                        k = k + 1;
                    }
                    proof {
                        assert forall|q: int|
                            0 <= q < removed@.len() implies (#[trigger] removed@[q])
                            < flat.nodes@.len() by {
                            assert(leaves@.contains(removed@[q]));
                            let w = choose|w: int|
                                0 <= w < leaves@.len() && leaves@[w] == removed@[q];
                        }
                    }
                    let mut removed_names: Vec<String> = Vec::new();
                    let mut k2: usize = 0;
                    while k2 < removed.len()
                        invariant
                            ns == flat.nodes@,
                            k2 <= removed@.len(),
                            forall|q: int| 0 <= q < removed@.len() ==> (#[trigger] removed@[q])
                                < ns.len(),
                            removed_names@.len() == k2,
                            forall|q: int| 0 <= q < k2 ==> (#[trigger] removed_names@[q])@ == ns[(
                            removed@[q]) as int].name@,
                        decreases removed@.len() - k2,
                    {
                        removed_names.push(clone_name(&flat.nodes[removed[k2]].name));
                        k2 = k2 + 1;
                    }
                    remove_all_unsampled(&mut flat, &removed);
                    let kept = sampled_leaves[0];
                    if kept >= flat.nodes.len() {
                        return None;
                    }
                    match rebuild_and_render(flat, kept) {
                        Some(nwk) => {
                            proof {
                                reveal(crate::pipeline::species_sample_witness);
                                assert(species_sample_steps(
                                    species_chars@,
                                    sampled_chars@,
                                    n_sampled_nodes as int,
                                    nwk@,
                                    sampled_names@,
                                    removed_names@,
                                    species_tree,
                                    sampled_tree,
                                    ftsp,
                                    ftsa,
                                    sampled_leaves@,
                                ));
                            }
                            Some((nwk, sampled_names, removed_names))
                        },
                        None => {
                            proof {
                                assert(!crate::tree::depths_present_monotone(flat.nodes@));
                                assert(false);
                            }
                            None
                        },
                    }
                },
                _ => {
                    proof {
                        if species_sample_supported(
                            species_chars@,
                            sampled_chars@,
                            n_sampled_nodes as int,
                        ) {
                            assert(false);
                        }
                    }
                    None
                },
            }
        },
        _ => None,
    }
}

/// The inputs on which one gene-tree sampling is owed success: the text
/// parses to trees, every matching parse tree flattens within the machine
/// range, and some leaf carries one of the kept names.
#[verifier::opaque]
pub open spec fn gene_sample_supported(keep_names: Seq<String>, chars: Seq<char>) -> bool {
    let vs = crate::newick::spec_parse_file(chars, 0);
    &&& vs is Some && vs->Some_0.len() > 0
    &&& forall|t: Node|
        (#[trigger] crate::newick::view_node(t)) == (crate::newick::NodeV {
            length: 0,
            ..vs->Some_0.last()
        }) && crate::tree::node_binary(t) ==> flatten_fits(t)
    &&& forall|t: Node, ft: FlatTree|
        #![trigger crate::newick::view_node(t), ft.nodes@]
        crate::newick::view_node(t) == (crate::newick::NodeV { length: 0, ..vs->Some_0.last() })
            && flat_of(ft, t) ==> filter_named(
            ft.nodes@,
            spec_leaf_indices(
                ft.nodes@,
                spec_traverse(ft.nodes@, 0, TraversalOrder::PreOrder, ft.nodes@.len() as nat),
            ),
            keep_names,
        ).len() > 0
}

/// The step chain of one gene-tree sampling, over a witness parse tree and
/// arena: the kept leaves are those named in the first list, the pruned
/// ones those named in the second, and the text is the emission of the
/// pruned, re-lengthed tree hanging from the first kept leaf's root.
pub open spec fn gene_sample_steps(
    keep_names: Seq<String>,
    drop_names: Seq<String>,
    chars: Seq<char>,
    nwk: Seq<char>,
    t: Node,
    ft: FlatTree,
) -> bool {
    let vs = crate::newick::spec_parse_file(chars, 0);
    let ns = ft.nodes@;
    let walk = spec_traverse(ns, 0, TraversalOrder::PreOrder, ns.len() as nat);
    let leaves = spec_leaf_indices(ns, walk);
    let kept = filter_named(ns, leaves, keep_names);
    let removed_idx = filter_named(ns, leaves, drop_names);
    let pruned = spec_remove_all(ns, 0, removed_idx, removed_idx.len() as int);
    let rt = crate::tree::chain_top(pruned.0, kept[0] as int, pruned.0.len() as nat)->Some_0;
    let rec = crate::convert::spec_to_node(pruned.0, rt, pruned.0.len() as nat);
    &&& vs matches Some(trees) && trees.len() > 0 && crate::newick::view_node(t) == (
    crate::newick::NodeV { length: 0, ..trees.last() })
    &&& ft.root == 0
    &&& crate::metric::same_but_depths(ns, crate::convert::spec_flatten(t, 0, None))
    &&& forall|i: int| 0 <= i < ns.len() ==> (#[trigger] ns[i]).depth == Some(
        crate::tree::pdepth(ns, i) as u64,
    )
    &&& kept.len() >= 1
    &&& rec.depth is Some
    &&& nwk == crate::newick::spec_emit(
        crate::newick::view_node(
            crate::metric::lengths_from_depths(rec, rec.depth->Some_0 as int),
        ),
    ) + ";"@
}

/// Some parse tree and arena witness the gene sampling.
#[verifier::opaque]
pub open spec fn gene_sample_witness(
    keep_names: Seq<String>,
    drop_names: Seq<String>,
    chars: Seq<char>,
    nwk: Seq<char>,
) -> bool {
    exists|t: Node, ft: FlatTree| #[trigger] gene_sample_steps(
        keep_names,
        drop_names,
        chars,
        nwk,
        t,
        ft,
    )
}

/// Samples one gene tree: keeps the leaves named in the first list, prunes
/// those named in the second, and renders the result, all as
/// [`gene_sample_steps`] lays out.  `None` reports malformed text, no kept
/// leaf, or times beyond the machine range.
#[verifier::rlimit(100)]
#[verifier::spinoff_prover]
pub fn one_gene_sample_to_string(
    sampled_leaves_names: &Vec<String>,
    leaves_to_be_removed_names: &Vec<String>,
    gene_chars: &Vec<char>,
) -> (r: Option<String>)
    ensures
        r is Some ==> crate::newick::spec_parse_file(gene_chars@, 0) is Some,
        (match r {
            Some(nwk) => gene_sample_witness(
                sampled_leaves_names@,
                leaves_to_be_removed_names@,
                gene_chars@,
                nwk@,
            ),
            None => true,
        }),
        gene_sample_supported(sampled_leaves_names@, gene_chars@) ==> r is Some,
{
    proof {
        reveal(crate::pipeline::gene_sample_supported);
    }
    let trees = newick_to_tree(gene_chars);
    match trees {
        None => None,
        Some(mut ts) => {
            if ts.len() == 0 {
                return None;
            }
            let mut gene_tree = ts.pop().unwrap();
            let ghost parsed = gene_tree;
            gene_tree.zero_root_length();
            proof {
                assert(crate::newick::view_node(gene_tree) == (crate::newick::NodeV {
                    length: 0,
                    ..crate::newick::view_node(parsed)
                }));
            }
            let flat_opt = flatten_with_depths(&gene_tree);
            match flat_opt {
                None => None,
                Some(mut flat) => {
                    let ghost ft = flat;
                    let sampled = find_leaves_in_gene_tree(&flat, sampled_leaves_names);
                    let removed = find_leaves_in_gene_tree(&flat, leaves_to_be_removed_names);
                    if sampled.len() == 0 {
                        proof {
                            if gene_sample_supported(sampled_leaves_names@, gene_chars@) {
                                assert(flat_of(ft, gene_tree));
                                assert(false);
                            }
                        }
                        return None;
                    }
                    remove_all_unsampled(&mut flat, &removed);
                    let kept = sampled[0];
                    if kept >= flat.nodes.len() {
                        return None;
                    }
                    match rebuild_and_render(flat, kept) {
                        Some(nwk) => {
                            proof {
                                reveal(crate::pipeline::gene_sample_witness);
                                assert(gene_sample_steps(
                                    sampled_leaves_names@,
                                    leaves_to_be_removed_names@,
                                    gene_chars@,
                                    nwk@,
                                    gene_tree,
                                    ft,
                                ));
                            }
                            Some(nwk)
                        },
                        None => {
                            proof {
                                assert(!crate::tree::depths_present_monotone(flat.nodes@));
                                assert(false);
                            }
                            None
                        },
                    }
                },
            }
        },
    }
}

/// Samples every gene tree of the batch: each text is processed like
/// [`one_gene_sample_to_string`], and a failed tree yields no text without
/// stopping the others.
pub fn sample_all_gene_trees(
    sampled_leaves_names: &Vec<String>,
    leaves_to_be_removed_names: &Vec<String>,
    gene_trees: &Vec<Vec<char>>,
) -> (r: Vec<Option<String>>)
    ensures
        r@.len() == gene_trees@.len(),
        forall|k: int|
            0 <= k < r@.len() ==> ((#[trigger] r@[k]) matches Some(nwk)
                ==> crate::newick::spec_parse_file(gene_trees@[k]@, 0) is Some
                && gene_sample_witness(
                sampled_leaves_names@,
                leaves_to_be_removed_names@,
                gene_trees@[k]@,
                nwk@,
            )),
        forall|k: int|
            0 <= k < r@.len() && gene_sample_supported(
                sampled_leaves_names@,
                (#[trigger] gene_trees@[k])@,
            ) ==> r@[k] is Some,
{
    let mut out: Vec<Option<String>> = Vec::new();
    let mut k: usize = 0;
    while k < gene_trees.len()
        invariant
            k <= gene_trees@.len(),
            out@.len() == k,
            forall|q: int|
                0 <= q < k ==> ((#[trigger] out@[q]) matches Some(nwk)
                    ==> crate::newick::spec_parse_file(gene_trees@[q]@, 0) is Some
                    && gene_sample_witness(
                    sampled_leaves_names@,
                    leaves_to_be_removed_names@,
                    gene_trees@[q]@,
                    nwk@,
                )),
            forall|q: int|
                0 <= q < k && gene_sample_supported(
                    sampled_leaves_names@,
                    (#[trigger] gene_trees@[q])@,
                ) ==> out@[q] is Some,
        decreases gene_trees@.len() - k,
    {
        let one = one_gene_sample_to_string(
            sampled_leaves_names,
            leaves_to_be_removed_names,
            &gene_trees[k],
        );
        out.push(one);
        k = k + 1;
    }
    out
}

/// Whether every node carries a depth no smaller than its parent's.
pub fn check_depths_monotone(node: &Node, parent_depth: u64) -> (r: bool)
    ensures
        r == depths_monotone_from(*node, parent_depth as int),
    decreases *node,
{
    match node.depth {
        None => false,
        Some(d) => {
            if d < parent_depth {
                return false;
            }
            let left_ok = match &node.left_child {
                Some(l) => check_depths_monotone(l, d),
                None => true,
            };
            if !left_ok {
                return false;
            }
            match &node.right_child {
                Some(r) => check_depths_monotone(r, d),
                None => true,
            }
        },
    }
}

} // verus!
