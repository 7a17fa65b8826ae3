//! Walks over both tree forms, name lookup, leaf selection, and the
//! order-insensitive tree comparisons.

use vstd::prelude::*;

use crate::tree::{
    FlatNode, FlatTree, Node, TraversalOrder, chain_dist, lemma_chain_bound, lemma_chain_dist_step,
    links_ok_at, wf,
};
use crate::convert::wf_arena;

verus! {

/// Things that expose a node name.
pub trait HasName {
    fn name(&self) -> &str;
}

impl HasName for Node {
    fn name(&self) -> &str {
        self.name.as_str()
    }
}

impl HasName for FlatNode {
    fn name(&self) -> &str {
        self.name.as_str()
    }
}

/// The slot indices a walk from `i` visits, in the requested order; left
/// before right, and the node itself first, in between, or last.
pub open spec fn spec_traverse(
    nodes: Seq<FlatNode>,
    i: int,
    order: TraversalOrder,
    fuel: nat,
) -> Seq<usize>
    decreases fuel,
{
    if !(0 <= i < nodes.len()) || fuel == 0 {
        seq![]
    } else {
        let ls = match nodes[i].left_child {
            Some(l) => spec_traverse(nodes, l as int, order, (fuel - 1) as nat),
            None => seq![],
        };
        let rs = match nodes[i].right_child {
            Some(r) => spec_traverse(nodes, r as int, order, (fuel - 1) as nat),
            None => seq![],
        };
        match order {
            TraversalOrder::PreOrder => seq![i as usize] + ls + rs,
            TraversalOrder::InOrder => ls + seq![i as usize] + rs,
            TraversalOrder::PostOrder => ls + rs + seq![i as usize],
        }
    }
}

/// A walk needs no more fuel than the arena has slots below the start.
pub proof fn lemma_traverse_fuel_stable(
    nodes: Seq<FlatNode>,
    i: int,
    order: TraversalOrder,
    f1: nat,
    f2: nat,
)
    requires
        wf_arena(nodes),
        nodes.len() <= usize::MAX,
        0 <= i < nodes.len(),
        f1 >= nodes.len() - chain_dist(nodes, i),
        f2 >= nodes.len() - chain_dist(nodes, i),
    ensures
        spec_traverse(nodes, i, order, f1) == spec_traverse(nodes, i, order, f2),
    decreases f1,
{
    assert(links_ok_at(nodes, i));
    lemma_chain_bound(nodes, i, nodes.len() as nat);
    if nodes[i].left_child is Some {
        let l = nodes[i].left_child->Some_0 as int;
        assert(links_ok_at(nodes, l));
        lemma_chain_dist_step(nodes, l);
        lemma_traverse_fuel_stable(nodes, l, order, (f1 - 1) as nat, (f2 - 1) as nat);
    }
    if nodes[i].right_child is Some {
        let r = nodes[i].right_child->Some_0 as int;
        assert(links_ok_at(nodes, r));
        lemma_chain_dist_step(nodes, r);
        lemma_traverse_fuel_stable(nodes, r, order, (f1 - 1) as nat, (f2 - 1) as nat);
    }
}

#[verifier::rlimit(60)]
fn traverse_from(t: &FlatTree, i: usize, order: &TraversalOrder, out: &mut Vec<usize>)
    requires
        wf(*t),
        i < t.nodes@.len(),
    ensures
        final(out)@ == old(out)@ + spec_traverse(t.nodes@, i as int, *order, t.nodes@.len() as nat),
    decreases t.nodes@.len() - chain_dist(t.nodes@, i as int),
{
    let ghost ns = t.nodes@;
    let len_bound = t.nodes.len();
    proof {
        assert(ns.len() == len_bound);
        assert(links_ok_at(ns, i as int));
        lemma_chain_bound(ns, i as int, ns.len() as nat);
    }
    let lc = t.nodes[i].left_child;
    let rc = t.nodes[i].right_child;
    proof {
        if lc is Some {
            let l = lc->Some_0 as int;
            assert(links_ok_at(ns, l));
            lemma_chain_dist_step(ns, l);
            lemma_traverse_fuel_stable(ns, l, *order, ns.len() as nat, (ns.len() - 1) as nat);
        }
        if rc is Some {
            let r = rc->Some_0 as int;
            assert(links_ok_at(ns, r));
            lemma_chain_dist_step(ns, r);
            lemma_traverse_fuel_stable(ns, r, *order, ns.len() as nat, (ns.len() - 1) as nat);
        }
    }
    match order {
        TraversalOrder::PreOrder => {
            out.push(i);
            if let Some(l) = lc {
                traverse_from(t, l, order, out);
            }
            if let Some(r) = rc {
                traverse_from(t, r, order, out);
            }
        },
        TraversalOrder::InOrder => {
            if let Some(l) = lc {
                traverse_from(t, l, order, out);
            }
            out.push(i);
            if let Some(r) = rc {
                traverse_from(t, r, order, out);
            }
        },
        TraversalOrder::PostOrder => {
            if let Some(l) = lc {
                traverse_from(t, l, order, out);
            }
            if let Some(r) = rc {
                traverse_from(t, r, order, out);
            }
            out.push(i);
        },
    }
    proof {
        assert(final(out)@ =~= old(out)@ + spec_traverse(ns, i as int, *order, ns.len() as nat));
    }
}

impl FlatTree {
    /// The reachable slot indices in the requested order.
    pub fn iter(&self, order: TraversalOrder) -> (r: Vec<usize>)
        requires
            wf(*self),
        ensures
            r@ == spec_traverse(self.nodes@, self.root as int, order, self.nodes@.len() as nat),
    {
        let mut out: Vec<usize> = Vec::new();
        traverse_from(self, self.root, &order, &mut out);
        out
    }

    /// The first slot whose name is `name`, walking the arena in slot order.
    pub fn find_node_index(&self, name: &str) -> (r: Option<usize>)
        ensures
            (match r {
                Some(i) => i < self.nodes@.len() && self.nodes@[i as int].name@ == name@ && (forall|
                    j: int,
                |
                    0 <= j < i ==> (#[trigger] self.nodes@[j]).name@ != name@),
                None => forall|j: int|
                    0 <= j < self.nodes@.len() ==> (#[trigger] self.nodes@[j]).name@ != name@,
            }),
    {
        let target = String::from_str(name);
        let mut k: usize = 0;
        while k < self.nodes.len()
            invariant
                k <= self.nodes@.len(),
                target@ == name@,
                forall|j: int| 0 <= j < k ==> (#[trigger] self.nodes@[j]).name@ != name@,
            decreases self.nodes@.len() - k,
        {
            if self.nodes[k].name.eq(&target) {
                return Some(k);
            }
            k = k + 1;
        }
        None
    }

    /// The top of the parent chain from `true_leaf`.
    pub fn find_root(&self, true_leaf: usize) -> (r: usize)
        requires
            wf(*self),
            true_leaf < self.nodes@.len(),
        ensures
            Some(r as int) == crate::tree::chain_top(
                self.nodes@,
                true_leaf as int,
                self.nodes@.len() as nat,
            ),
    {
        let ghost ns = self.nodes@;
        let mut current: usize = true_leaf;
        proof {
            assert(links_ok_at(ns, current as int));
        }
        loop
            invariant
                wf(*self),
                ns == self.nodes@,
                current < ns.len(),
                crate::tree::chain_top(ns, true_leaf as int, ns.len() as nat)
                    == crate::tree::chain_top(ns, current as int, ns.len() as nat),
            decreases chain_dist(ns, current as int),
        {
            proof {
                assert(links_ok_at(ns, current as int));
            }
            match self.nodes[current].parent {
                Some(p) => {
                    proof {
                        assert(crate::tree::parents_in_range(ns)) by {
                            assert forall|j: int|
                                0 <= j < ns.len() && #[trigger] ns[j].parent is Some implies ns[j].parent->Some_0
                                < ns.len() by {
                                assert(links_ok_at(ns, j));
                            }
                        }
                        lemma_chain_dist_step(ns, current as int);
                        crate::tree::lemma_path_step(ns, current as int);
                    }
                    current = p;
                },
                None => {
                    return current;
                },
            }
        }
    }
}

/// The leaves seen by a pre-order walk, each with its depth, in the order
/// the walk meets them.
pub open spec fn spec_leaf_depths(nodes: Seq<FlatNode>, walk: Seq<usize>) -> Seq<(usize, u64)>
    decreases walk.len(),
{
    if walk.len() == 0 {
        seq![]
    } else {
        let rest = spec_leaf_depths(nodes, walk.drop_last());
        let i = walk.last() as int;
        if nodes[i].left_child is None && nodes[i].right_child is None {
            rest + seq![(walk.last(), nodes[i].depth->Some_0)]
        } else {
            rest
        }
    }
}

/// Entries of the leaf list come from the walk, so they stay in range.
pub proof fn lemma_leaf_depths_bound(nodes: Seq<FlatNode>, walk: Seq<usize>, n: int)
    requires
        forall|q: int| 0 <= q < walk.len() ==> (#[trigger] walk[q]) < n,
    ensures
        forall|k: int|
            0 <= k < spec_leaf_depths(nodes, walk).len() ==> (#[trigger] spec_leaf_depths(
                nodes,
                walk,
            )[k]).0 < n,
    decreases walk.len(),
{
    if walk.len() > 0 {
        assert(forall|q: int| 0 <= q < walk.len() - 1 ==> (#[trigger] walk.drop_last()[q]) < n);
        lemma_leaf_depths_bound(nodes, walk.drop_last(), n);
        assert(walk.last() == walk[walk.len() - 1]);
        let rest = spec_leaf_depths(nodes, walk.drop_last());
        let whole = spec_leaf_depths(nodes, walk);
        assert forall|k: int| 0 <= k < whole.len() implies (#[trigger] whole[k]).0 < n by {
            if k < rest.len() {
                assert(whole[k] == rest[k]);
            }
        }
    }
}

/// Inserts into a list sorted by depth, largest first: the new entry goes
/// after every entry at least as deep, so equal depths keep their first-seen
/// order.
pub open spec fn spec_insert_desc(s: Seq<(usize, u64)>, x: (usize, u64)) -> Seq<(usize, u64)>
    decreases s.len(),
{
    if s.len() == 0 {
        seq![x]
    } else if s.last().1 >= x.1 {
        s + seq![x]
    } else {
        spec_insert_desc(s.drop_last(), x) + seq![s.last()]
    }
}

/// Sorts by depth, largest first, stable over the input order.
pub open spec fn spec_sort_desc(s: Seq<(usize, u64)>) -> Seq<(usize, u64)>
    decreases s.len(),
{
    if s.len() == 0 {
        seq![]
    } else {
        spec_insert_desc(spec_sort_desc(s.drop_last()), s.last())
    }
}

/// Every slot a walk visits is in range.
pub proof fn lemma_traverse_in_range(
    nodes: Seq<FlatNode>,
    i: int,
    order: TraversalOrder,
    fuel: nat,
)
    ensures
        forall|k: int|
            0 <= k < spec_traverse(nodes, i, order, fuel).len() ==> (#[trigger] spec_traverse(
                nodes,
                i,
                order,
                fuel,
            )[k]) < nodes.len(),
    decreases fuel,
{
    if 0 <= i < nodes.len() && fuel > 0 {
        if nodes[i].left_child is Some {
            lemma_traverse_in_range(nodes, nodes[i].left_child->Some_0 as int, order, (fuel
                - 1) as nat);
        }
        if nodes[i].right_child is Some {
            lemma_traverse_in_range(nodes, nodes[i].right_child->Some_0 as int, order, (fuel
                - 1) as nat);
        }
        let ls = match nodes[i].left_child {
            Some(l) => spec_traverse(nodes, l as int, order, (fuel - 1) as nat),
            None => seq![],
        };
        let rs = match nodes[i].right_child {
            Some(r) => spec_traverse(nodes, r as int, order, (fuel - 1) as nat),
            None => seq![],
        };
        let s = spec_traverse(nodes, i, order, fuel);
        assert forall|k: int| 0 <= k < s.len() implies (#[trigger] s[k]) < nodes.len() by {
            match order {
                TraversalOrder::PreOrder => {
                    if k == 0 {
                    } else if k <= ls.len() {
                        assert(s[k] == ls[k - 1]);
                    } else {
                        assert(s[k] == rs[k - 1 - ls.len()]);
                    }
                },
                TraversalOrder::InOrder => {
                    if k < ls.len() {
                        assert(s[k] == ls[k]);
                    } else if k == ls.len() {
                    } else {
                        assert(s[k] == rs[k - 1 - ls.len()]);
                    }
                },
                TraversalOrder::PostOrder => {
                    if k < ls.len() {
                        assert(s[k] == ls[k]);
                    } else if k < ls.len() + rs.len() {
                        assert(s[k] == rs[k - ls.len()]);
                    } else {
                    }
                },
            }
        }
    }
}

/// Entries of an insertion are the old entries and the new one, so a bound
/// on the first components survives.
pub proof fn lemma_insert_desc_bound(s: Seq<(usize, u64)>, x: (usize, u64), n: int)
    requires
        forall|k: int| 0 <= k < s.len() ==> (#[trigger] s[k]).0 < n,
        x.0 < n,
    ensures
        forall|k: int|
            0 <= k < spec_insert_desc(s, x).len() ==> (#[trigger] spec_insert_desc(s, x)[k]).0 < n,
    decreases s.len(),
{
    let whole = spec_insert_desc(s, x);
    if s.len() == 0 || s.last().1 >= x.1 {
        assert forall|k: int| 0 <= k < whole.len() implies (#[trigger] whole[k]).0 < n by {
            if k < s.len() {
                assert(whole[k] == s[k]);
            } else {
                assert(whole[k] == x);
            }
        }
    } else {
        assert(forall|k: int| 0 <= k < s.len() - 1 ==> (#[trigger] s.drop_last()[k]).0 < n);
        lemma_insert_desc_bound(s.drop_last(), x, n);
        let inner = spec_insert_desc(s.drop_last(), x);
        assert forall|k: int| 0 <= k < whole.len() implies (#[trigger] whole[k]).0 < n by {
            if k < inner.len() {
                assert(whole[k] == inner[k]);
            } else {
                assert(whole[k] == s.last());
            }
        }
    }
}

/// The same bound survives a whole sort.
pub proof fn lemma_sort_desc_bound(s: Seq<(usize, u64)>, n: int)
    requires
        forall|k: int| 0 <= k < s.len() ==> (#[trigger] s[k]).0 < n,
    ensures
        forall|k: int|
            0 <= k < spec_sort_desc(s).len() ==> (#[trigger] spec_sort_desc(s)[k]).0 < n,
    decreases s.len(),
{
    if s.len() > 0 {
        assert(forall|k: int| 0 <= k < s.len() - 1 ==> (#[trigger] s.drop_last()[k]).0 < n);
        lemma_sort_desc_bound(s.drop_last(), n);
        lemma_insert_desc_bound(spec_sort_desc(s.drop_last()), s.last(), n);
    }
}

/// Inserts into a list sorted by the second component ascending: the new
/// entry goes after every entry no larger, so ties keep their first-seen
/// order.
pub open spec fn spec_insert_asc(s: Seq<(usize, u64)>, x: (usize, u64)) -> Seq<(usize, u64)>
    decreases s.len(),
{
    if s.len() == 0 {
        seq![x]
    } else if s.last().1 <= x.1 {
        s + seq![x]
    } else {
        spec_insert_asc(s.drop_last(), x) + seq![s.last()]
    }
}

/// Sorts by the second component ascending, stable over the input order.
pub open spec fn spec_sort_asc(s: Seq<(usize, u64)>) -> Seq<(usize, u64)>
    decreases s.len(),
{
    if s.len() == 0 {
        seq![]
    } else {
        spec_insert_asc(spec_sort_asc(s.drop_last()), s.last())
    }
}

/// As for the descending sort, bounds on the first components survive.
pub proof fn lemma_insert_asc_bound(s: Seq<(usize, u64)>, x: (usize, u64), n: int)
    requires
        forall|k: int| 0 <= k < s.len() ==> (#[trigger] s[k]).0 < n,
        x.0 < n,
    ensures
        forall|k: int|
            0 <= k < spec_insert_asc(s, x).len() ==> (#[trigger] spec_insert_asc(s, x)[k]).0 < n,
    decreases s.len(),
{
    let whole = spec_insert_asc(s, x);
    if s.len() == 0 || s.last().1 <= x.1 {
        assert forall|k: int| 0 <= k < whole.len() implies (#[trigger] whole[k]).0 < n by {
            if k < s.len() {
                assert(whole[k] == s[k]);
            } else {
                assert(whole[k] == x);
            }
        }
    } else {
        assert(forall|k: int| 0 <= k < s.len() - 1 ==> (#[trigger] s.drop_last()[k]).0 < n);
        lemma_insert_asc_bound(s.drop_last(), x, n);
        let inner = spec_insert_asc(s.drop_last(), x);
        assert forall|k: int| 0 <= k < whole.len() implies (#[trigger] whole[k]).0 < n by {
            if k < inner.len() {
                assert(whole[k] == inner[k]);
            } else {
                assert(whole[k] == s.last());
            }
        }
    }
}

pub proof fn lemma_sort_asc_bound(s: Seq<(usize, u64)>, n: int)
    requires
        forall|k: int| 0 <= k < s.len() ==> (#[trigger] s[k]).0 < n,
    ensures
        forall|k: int| 0 <= k < spec_sort_asc(s).len() ==> (#[trigger] spec_sort_asc(s)[k]).0 < n,
    decreases s.len(),
{
    if s.len() > 0 {
        assert(forall|k: int| 0 <= k < s.len() - 1 ==> (#[trigger] s.drop_last()[k]).0 < n);
        lemma_sort_asc_bound(s.drop_last(), n);
        lemma_insert_asc_bound(spec_sort_asc(s.drop_last()), s.last(), n);
    }
}

pub(crate) fn insert_asc(v: &mut Vec<(usize, u64)>, x: (usize, u64))
    ensures
        final(v)@ == spec_insert_asc(old(v)@, x),
    decreases old(v)@.len(),
{
    if v.len() == 0 {
        v.push(x);
        proof {
            assert(final(v)@ =~= spec_insert_asc(old(v)@, x));
        }
    } else {
        let last = v[v.len() - 1];
        if last.1 <= x.1 {
            v.push(x);
            proof {
                assert(final(v)@ =~= old(v)@ + seq![x]);
            }
        } else {
            let popped = v.pop().unwrap();
            proof {
                assert(v@ =~= old(v)@.drop_last());
            }
            insert_asc(v, x);
            v.push(popped);
            proof {
                assert(final(v)@ =~= spec_insert_asc(old(v)@.drop_last(), x) + seq![
                    old(v)@.last(),
                ]);
            }
        }
    }
}

pub(crate) fn insert_desc(v: &mut Vec<(usize, u64)>, x: (usize, u64))
    ensures
        final(v)@ == spec_insert_desc(old(v)@, x),
    decreases old(v)@.len(),
{
    if v.len() == 0 {
        v.push(x);
        proof {
            assert(final(v)@ =~= spec_insert_desc(old(v)@, x));
        }
    } else {
        let last = v[v.len() - 1];
        if last.1 >= x.1 {
            v.push(x);
            proof {
                assert(final(v)@ =~= old(v)@ + seq![x]);
            }
        } else {
            let popped = v.pop().unwrap();
            proof {
                assert(v@ =~= old(v)@.drop_last());
            }
            insert_desc(v, x);
            v.push(popped);
            proof {
                assert(final(v)@ =~= spec_insert_desc(old(v)@.drop_last(), x) + seq![
                    old(v)@.last(),
                ]);
            }
        }
    }
}

/// The deepest leaves: every leaf of the tree with its depth, sorted by
/// depth descending with ties in walk order, the first `nb_leaves` indices.
pub fn find_deepest_nodes(flat_tree: &FlatTree, nb_leaves: usize) -> (r: Vec<usize>)
    requires
        wf(*flat_tree),
        forall|i: int| 0 <= i < flat_tree.nodes@.len() ==> (#[trigger] flat_tree.nodes@[i]).depth
            is Some,
    ensures
        ({
            let walk = spec_traverse(
                flat_tree.nodes@,
                flat_tree.root as int,
                TraversalOrder::PreOrder,
                flat_tree.nodes@.len() as nat,
            );
            let sorted = spec_sort_desc(spec_leaf_depths(flat_tree.nodes@, walk));
            &&& r@.len() == (if nb_leaves <= sorted.len() {
                nb_leaves as int
            } else {
                sorted.len() as int
            })
            &&& forall|k: int| 0 <= k < r@.len() ==> r@[k] == (#[trigger] sorted[k]).0
            &&& forall|k: int| 0 <= k < r@.len() ==> (#[trigger] r@[k]) < flat_tree.nodes@.len()
        }),
{
    let ghost ns = flat_tree.nodes@;
    let walk = flat_tree.iter(TraversalOrder::PreOrder);
    proof {
        lemma_traverse_in_range(ns, flat_tree.root as int, TraversalOrder::PreOrder, ns.len() as nat);
    }
    let mut leaves: Vec<(usize, u64)> = Vec::new();
    let mut k: usize = 0;
    while k < walk.len()
        invariant
            ns == flat_tree.nodes@,
            wf(*flat_tree),
            forall|i: int| 0 <= i < ns.len() ==> (#[trigger] ns[i]).depth is Some,
            k <= walk@.len(),
            forall|q: int| 0 <= q < walk@.len() ==> (#[trigger] walk@[q]) < ns.len(),
            leaves@ == spec_leaf_depths(ns, walk@.subrange(0, k as int)),
        decreases walk@.len() - k,
    {
        proof {
            assert(walk@.subrange(0, k + 1).drop_last() =~= walk@.subrange(0, k as int));
            assert(walk@.subrange(0, k + 1).last() == walk@[k as int]);
        }
        let i = walk[k];
        if flat_tree.nodes[i].left_child.is_none() && flat_tree.nodes[i].right_child.is_none() {
            let d = flat_tree.nodes[i].depth.unwrap();
            leaves.push((i, d));
        }
        k = k + 1;
    }
    proof {
        assert(walk@.subrange(0, walk@.len() as int) =~= walk@);
    }
    // sort by depth descending, stable
    let mut sorted: Vec<(usize, u64)> = Vec::new();
    let mut k2: usize = 0;
    while k2 < leaves.len()
        invariant
            k2 <= leaves@.len(),
            sorted@ == spec_sort_desc(leaves@.subrange(0, k2 as int)),
        decreases leaves@.len() - k2,
    {
        proof {
            assert(leaves@.subrange(0, k2 + 1).drop_last() =~= leaves@.subrange(0, k2 as int));
            assert(leaves@.subrange(0, k2 + 1).last() == leaves@[k2 as int]);
        }
        insert_desc(&mut sorted, leaves[k2]);
        k2 = k2 + 1;
    }
    proof {
        assert(leaves@.subrange(0, leaves@.len() as int) =~= leaves@);
        lemma_leaf_depths_bound(ns, walk@, ns.len() as int);
        lemma_sort_desc_bound(spec_leaf_depths(ns, walk@), ns.len() as int);
    }
    // keep the first indices
    let mut r: Vec<usize> = Vec::new();
    let mut k3: usize = 0;
    while k3 < sorted.len() && k3 < nb_leaves
        invariant
            k3 <= sorted@.len(),
            k3 <= nb_leaves,
            k3 == r@.len(),
            r@.len() == (if nb_leaves <= sorted@.len() && k3 == nb_leaves {
                nb_leaves as int
            } else {
                k3 as int
            }),
            forall|q: int| 0 <= q < r@.len() ==> r@[q] == (#[trigger] sorted@[q]).0,
        decreases sorted@.len() - k3,
    {
        r.push(sorted[k3].0);
        k3 = k3 + 1;
    }
    proof {
        lemma_leaf_depths_bound(ns, walk@, ns.len() as int);
        lemma_sort_desc_bound(spec_leaf_depths(ns, walk@), ns.len() as int);
        let sorted_spec = spec_sort_desc(spec_leaf_depths(ns, walk@));
        assert(sorted@ == sorted_spec);
        assert forall|k: int| 0 <= k < r@.len() implies (#[trigger] r@[k]) < ns.len() by {
            assert(r@[k] == sorted_spec[k].0);
            assert(sorted_spec[k].0 < ns.len());
        }
    }
    r
}

/// Whether the walk from each tree matches the other, name by name, length
/// within one thousandth of a time unit, depth exactly, children matched in
/// either pairing.
pub open spec fn spec_compare_nodes(n1: Node, n2: Node) -> bool
    decreases n1,
{
    &&& n1.name@ == n2.name@
    &&& (if n1.length >= n2.length {
        n1.length - n2.length
    } else {
        n2.length - n1.length
    }) <= 1_000
    &&& n1.depth == n2.depth
    &&& (match (n1.left_child, n1.right_child, n2.left_child, n2.right_child) {
        (None, None, None, None) => true,
        (Some(a), None, Some(c), None) => spec_compare_nodes(*a, *c),
        (None, Some(b), None, Some(d)) => spec_compare_nodes(*b, *d),
        (Some(a), None, None, Some(d)) => spec_compare_nodes(*a, *d),
        (None, Some(b), Some(c), None) => spec_compare_nodes(*b, *c),
        (Some(a), Some(b), Some(c), Some(d)) => (spec_compare_nodes(*a, *c) && spec_compare_nodes(
            *b,
            *d,
        )) || (spec_compare_nodes(*a, *d) && spec_compare_nodes(*b, *c)),
        _ => false,
    })
}

/// The same comparison ignoring lengths and depths.
pub open spec fn spec_compare_topology(n1: Node, n2: Node) -> bool
    decreases n1,
{
    &&& n1.name@ == n2.name@
    &&& (match (n1.left_child, n1.right_child, n2.left_child, n2.right_child) {
        (None, None, None, None) => true,
        (Some(a), None, Some(c), None) => spec_compare_topology(*a, *c),
        (None, Some(b), None, Some(d)) => spec_compare_topology(*b, *d),
        (Some(a), None, None, Some(d)) => spec_compare_topology(*a, *d),
        (None, Some(b), Some(c), None) => spec_compare_topology(*b, *c),
        (Some(a), Some(b), Some(c), Some(d)) => (spec_compare_topology(*a, *c)
            && spec_compare_topology(*b, *d)) || (spec_compare_topology(*a, *d)
            && spec_compare_topology(*b, *c)),
        _ => false,
    })
}

/// Structural equality of two trees: names exact, lengths within one
/// thousandth of a time unit, depths exact, children in either order.
pub fn compare_nodes(n1: &Node, n2: &Node) -> (r: bool)
    ensures
        r == spec_compare_nodes(*n1, *n2),
    decreases *n1,
{
    if !n1.name.eq(&n2.name) {
        return false;
    }
    let diff = if n1.length >= n2.length {
        n1.length - n2.length
    } else {
        n2.length - n1.length
    };
    if diff > 1_000 {
        return false;
    }
    let depth_eq = match (n1.depth, n2.depth) {
        (None, None) => true,
        (Some(a), Some(b)) => a == b,
        _ => false,
    };
    if !depth_eq {
        return false;
    }
    match (&n1.left_child, &n1.right_child, &n2.left_child, &n2.right_child) {
        (None, None, None, None) => true,
        (Some(a), None, Some(c), None) => compare_nodes(a, c),
        (None, Some(b), None, Some(d)) => compare_nodes(b, d),
        (Some(a), None, None, Some(d)) => compare_nodes(a, d),
        (None, Some(b), Some(c), None) => compare_nodes(b, c),
        (Some(a), Some(b), Some(c), Some(d)) => (compare_nodes(a, c) && compare_nodes(b, d)) || (
        compare_nodes(a, d) && compare_nodes(b, c)),
        _ => false,
    }
}

/// Topology-only equality of two trees: names exact, children in either
/// order.
pub fn compare_nodes_topology(n1: &Node, n2: &Node) -> (r: bool)
    ensures
        r == spec_compare_topology(*n1, *n2),
    decreases *n1,
{
    if !n1.name.eq(&n2.name) {
        return false;
    }
    match (&n1.left_child, &n1.right_child, &n2.left_child, &n2.right_child) {
        (None, None, None, None) => true,
        (Some(a), None, Some(c), None) => compare_nodes_topology(a, c),
        (None, Some(b), None, Some(d)) => compare_nodes_topology(b, d),
        (Some(a), None, None, Some(d)) => compare_nodes_topology(a, d),
        (None, Some(b), Some(c), None) => compare_nodes_topology(b, c),
        (Some(a), Some(b), Some(c), Some(d)) => (compare_nodes_topology(a, c)
            && compare_nodes_topology(b, d)) || (compare_nodes_topology(a, d)
            && compare_nodes_topology(b, c)),
        _ => false,
    }
}

} // verus!

verus! {

/// The nodes of a recursive tree in the requested order; left before right.
pub open spec fn spec_traverse_node(t: Node, order: TraversalOrder) -> Seq<Node>
    decreases t,
{
    let ls = match t.left_child {
        Some(l) => spec_traverse_node(*l, order),
        None => seq![],
    };
    let rs = match t.right_child {
        Some(r) => spec_traverse_node(*r, order),
        None => seq![],
    };
    match order {
        TraversalOrder::PreOrder => seq![t] + ls + rs,
        TraversalOrder::InOrder => ls + seq![t] + rs,
        TraversalOrder::PostOrder => ls + rs + seq![t],
    }
}

fn collect_nodes<'a>(t: &'a Node, order: &TraversalOrder, out: &mut Vec<&'a Node>)
    ensures
        final(out)@.len() == old(out)@.len() + spec_traverse_node(*t, *order).len(),
        forall|k: int| 0 <= k < old(out)@.len() ==> #[trigger] final(out)@[k] == old(out)@[k],
        forall|k: int|
            0 <= k < spec_traverse_node(*t, *order).len() ==> *(#[trigger] final(out)@[old(
                out,
            )@.len() + k]) == spec_traverse_node(*t, *order)[k],
    decreases *t,
{
    let ghost walk = spec_traverse_node(*t, *order);
    let ghost base = out@.len() as int;
    let ghost ls = if t.left_child is Some {
        spec_traverse_node(*t.left_child->Some_0, *order)
    } else {
        Seq::<Node>::empty()
    };
    let ghost rs = if t.right_child is Some {
        spec_traverse_node(*t.right_child->Some_0, *order)
    } else {
        Seq::<Node>::empty()
    };
    match order {
        TraversalOrder::PreOrder => {
            out.push(t);
            let ghost m1 = out@;
            if let Some(l) = &t.left_child {
                collect_nodes(l, order, out);
            }
            let ghost m2 = out@;
            if let Some(r) = &t.right_child {
                collect_nodes(r, order, out);
            }
            proof {
                assert(walk =~= seq![*t] + ls + rs);
                assert(m1[base] == t);
                assert forall|k: int| 0 <= k < walk.len() implies *(#[trigger] out@[base + k])
                    == walk[k] by {
                    if k == 0 {
                        assert(out@[base] == m2[base]);
                        assert(m2[base] == m1[base]);
                    } else if k <= ls.len() {
                        assert(m2[m1.len() as int + (k - 1)] == out@[base + k]);
                        assert(*(m2[m1.len() as int + (k - 1)]) == ls[k - 1]);
                    } else {
                        assert(*(out@[m2.len() as int + (k - 1 - ls.len())]) == rs[k - 1
                            - ls.len()]);
                    }
                }
            }
        },
        TraversalOrder::InOrder => {
            if let Some(l) = &t.left_child {
                collect_nodes(l, order, out);
            }
            let ghost m1 = out@;
            out.push(t);
            let ghost m2 = out@;
            if let Some(r) = &t.right_child {
                collect_nodes(r, order, out);
            }
            proof {
                assert(walk =~= ls + seq![*t] + rs);
                assert(m2[m1.len() as int] == t);
                assert forall|k: int| 0 <= k < walk.len() implies *(#[trigger] out@[base + k])
                    == walk[k] by {
                    if k < ls.len() {
                        assert(out@[base + k] == m2[base + k]);
                        assert(m2[base + k] == m1[base + k]);
                        assert(*(m1[base + k]) == ls[k]);
                    } else if k == ls.len() {
                        assert(out@[base + k] == m2[base + k]);
                        assert(m2[base + k] == t);
                    } else {
                        assert(*(out@[m2.len() as int + (k - 1 - ls.len())]) == rs[k - 1
                            - ls.len()]);
                    }
                }
            }
        },
        TraversalOrder::PostOrder => {
            if let Some(l) = &t.left_child {
                collect_nodes(l, order, out);
            }
            let ghost m1 = out@;
            if let Some(r) = &t.right_child {
                collect_nodes(r, order, out);
            }
            let ghost m2 = out@;
            out.push(t);
            proof {
                assert(walk =~= ls + rs + seq![*t]);
                assert forall|k: int| 0 <= k < walk.len() implies *(#[trigger] out@[base + k])
                    == walk[k] by {
                    if k < ls.len() {
                        assert(out@[base + k] == m2[base + k]);
                        assert(m2[base + k] == m1[base + k]);
                        assert(*(m1[base + k]) == ls[k]);
                    } else if k < ls.len() + rs.len() {
                        assert(out@[base + k] == m2[base + k]);
                        assert(*(m2[m1.len() as int + (k - ls.len())]) == rs[k - ls.len()]);
                    } else {
                        assert(out@[base + k] == t);
                    }
                }
            }
        },
    }
}

impl Node {
    /// The nodes of this tree in the requested order.
    pub fn iter(&self, order: TraversalOrder) -> (r: Vec<&Node>)
        ensures
            r@.len() == spec_traverse_node(*self, order).len(),
            forall|k: int|
                0 <= k < r@.len() ==> *(#[trigger] r@[k]) == spec_traverse_node(*self, order)[k],
    {
        let mut out: Vec<&Node> = Vec::new();
        collect_nodes(self, &order, &mut out);
        proof {
            assert forall|k: int|
                0 <= k < out@.len() implies *(#[trigger] out@[k]) == spec_traverse_node(
                *self,
                order,
            )[k] by {
                assert(*(out@[0 + k]) == spec_traverse_node(*self, order)[k]);
            }
        }
        out
    }
}

} // verus!
