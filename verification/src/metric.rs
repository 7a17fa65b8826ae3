//! Depth and branch-length arithmetic: assigning depths from lengths,
//! recovering lengths from depths, the timeline subdivision and its
//! intervals, and the contemporaneity index.

use vstd::prelude::*;

use crate::tree::{
    FlatNode, FlatTree, Node, chain_dist, is_ancestor_of, lemma_anc_antisym, lemma_anc_same_links,
    lemma_anc_step, lemma_chain_dist_step, lemma_chain_same_links,
    lemma_path_step, lemma_subtree_decompose, lemma_subtree_embed, lemma_top_of_subtree,
    lemma_wf_links_unchanged, links_ok_at, live, pdepth, subtree_of, wf,
};

verus! {

/// Whether assigning depths from `depth` downward stays within the machine
/// range.
pub open spec fn depths_fit(t: Node, depth: int) -> bool
    decreases t,
{
    &&& 0 <= depth <= u64::MAX
    &&& (t.left_child matches Some(l) ==> depths_fit(*l, depth + l.length))
    &&& (t.right_child matches Some(r) ==> depths_fit(*r, depth + r.length))
}

/// The tree with every depth assigned: `depth` at this node, and each child
/// deeper than its parent by its own branch length.
pub open spec fn with_depths(t: Node, depth: int) -> Node
    decreases t,
{
    Node {
        name: t.name,
        length: t.length,
        depth: Some(depth as u64),
        left_child: match t.left_child {
            Some(l) => Some(Box::new(with_depths(*l, depth + l.length))),
            None => None,
        },
        right_child: match t.right_child {
            Some(r) => Some(Box::new(with_depths(*r, depth + r.length))),
            None => None,
        },
    }
}

/// Every node carries a depth, no smaller than its parent's.
pub open spec fn depths_monotone_from(t: Node, parent_depth: int) -> bool
    decreases t,
{
    &&& t.depth matches Some(d) && parent_depth <= d
    &&& (t.left_child matches Some(l) ==> depths_monotone_from(*l, t.depth->Some_0 as int))
    &&& (t.right_child matches Some(r) ==> depths_monotone_from(*r, t.depth->Some_0 as int))
}

/// The tree with every branch length recomputed as the node's depth minus
/// its parent's depth; depths are kept.
pub open spec fn lengths_from_depths(t: Node, parent_depth: int) -> Node
    decreases t,
{
    Node {
        name: t.name,
        length: (t.depth->Some_0 - parent_depth) as u64,
        depth: t.depth,
        left_child: match t.left_child {
            Some(l) => Some(Box::new(lengths_from_depths(*l, t.depth->Some_0 as int))),
            None => None,
        },
        right_child: match t.right_child {
            Some(r) => Some(Box::new(lengths_from_depths(*r, t.depth->Some_0 as int))),
            None => None,
        },
    }
}

/// The sum of every branch length in the tree, the root's included.
pub open spec fn spec_total_length(t: Node) -> int
    decreases t,
{
    t.length + (match t.left_child {
        Some(l) => spec_total_length(*l),
        None => 0,
    }) + (match t.right_child {
        Some(r) => spec_total_length(*r),
        None => 0,
    })
}

/// Recursively sets the depth of every node: this node at `depth`, each
/// child deeper by its own branch length.
pub fn give_depth(node: &mut Node, depth: u64)
    requires
        depths_fit(*old(node), depth as int),
    ensures
        *final(node) == with_depths(*old(node), depth as int),
{
    node.assign_depths(depth);
}

impl Node {
    /// Assigns depths from `current_depth` at this node downward.
    pub fn assign_depths(&mut self, current_depth: u64)
        requires
            depths_fit(*old(self), current_depth as int),
        ensures
            *final(self) == with_depths(*old(self), current_depth as int),
        decreases *old(self),
    {
        self.depth = Some(current_depth);
        match &mut self.left_child {
            Some(l) => {
                proof {
                    assert(depths_fit(**l, current_depth as int + l.length));
                }
                let d = current_depth + l.length;
                l.assign_depths(d);
            },
            None => {},
        }
        match &mut self.right_child {
            Some(r) => {
                proof {
                    assert(depths_fit(**r, current_depth as int + r.length));
                }
                let d = current_depth + r.length;
                r.assign_depths(d);
            },
            None => {},
        }
    }

    /// Clears this node's own branch length, making it a depth-zero root.
    pub fn zero_root_length(&mut self)
        ensures
            *final(self) == (Node { length: 0, ..*old(self) }),
    {
        self.length = 0;
    }

    /// The sum of every branch length in the tree.
    pub fn total_length(&self) -> (r: u64)
        requires
            spec_total_length(*self) <= u64::MAX,
        ensures
            r == spec_total_length(*self),
        decreases *self,
    {
        proof {
            if self.left_child is Some {
                lemma_total_length_nonneg(*self.left_child->Some_0);
            }
            if self.right_child is Some {
                lemma_total_length_nonneg(*self.right_child->Some_0);
            }
        }
        let mut total: u64 = self.length;
        match &self.left_child {
            Some(l) => {
                total = total + l.total_length();
            },
            None => {},
        }
        match &self.right_child {
            Some(r) => {
                total = total + r.total_length();
            },
            None => {},
        }
        total
    }

    /// Recomputes every branch length as the node's depth minus its parent's
    /// depth (given as `parent_depth`); depths are untouched.
    pub fn depths_to_lengths(&mut self, parent_depth: u64)
        requires
            depths_monotone_from(*old(self), parent_depth as int),
        ensures
            *final(self) == lengths_from_depths(*old(self), parent_depth as int),
        decreases *old(self),
    {
        let depth = self.depth.unwrap();
        self.length = depth - parent_depth;
        match &mut self.left_child {
            Some(l) => {
                l.depths_to_lengths(depth);
            },
            None => {},
        }
        match &mut self.right_child {
            Some(r) => {
                r.depths_to_lengths(depth);
            },
            None => {},
        }
    }
}

/// A sum of branch lengths is never negative.
pub proof fn lemma_total_length_nonneg(t: Node)
    ensures
        spec_total_length(t) >= 0,
    decreases t,
{
    match t.left_child {
        Some(l) => lemma_total_length_nonneg(*l),
        None => {},
    }
    match t.right_child {
        Some(r) => lemma_total_length_nonneg(*r),
        None => {},
    }
}

/// Assigning depths yields depths that never decrease from parent to child.
pub proof fn lemma_with_depths_monotone(t: Node, depth: int)
    requires
        depths_fit(t, depth),
    ensures
        depths_monotone_from(with_depths(t, depth), depth),
    decreases t,
{
    let w = with_depths(t, depth);
    match t.left_child {
        Some(l) => {
            assert(depths_fit(*l, depth + l.length));
            lemma_with_depths_monotone(*l, depth + l.length);
            let wl = with_depths(*l, depth + l.length);
            assert(depths_monotone_from(wl, depth + l.length));
            assert(depths_monotone_from(wl, depth as u64 as int));
        },
        None => {},
    }
    match t.right_child {
        Some(r) => {
            assert(depths_fit(*r, depth + r.length));
            lemma_with_depths_monotone(*r, depth + r.length);
            let wr = with_depths(*r, depth + r.length);
            assert(depths_monotone_from(wr, depth + r.length));
            assert(depths_monotone_from(wr, depth as u64 as int));
        },
        None => {},
    }
    assert(w.depth == Some(depth as u64));
}

/// Recovering lengths from depths undoes assigning depths from lengths: on
/// a tree whose own branch length is zero, assigning depths from `depth` and
/// then recomputing lengths against `depth` changes nothing — in particular
/// every branch length is exactly what it was before the round trip.
pub proof fn lemma_depth_length_round_trip(t: Node, depth: int)
    requires
        depths_fit(t, depth),
        t.length == 0,
    ensures
        lengths_from_depths(with_depths(t, depth), depth) == with_depths(t, depth),
    decreases t,
{
    lemma_round_trip_rec(t, depth);
}

/// The inner induction: at depth `depth` under a parent at `parent_depth`,
/// recomputing the length gives back `depth - parent_depth`, which is the
/// node's own branch length whenever depths were assigned from it.
proof fn lemma_round_trip_rec(t: Node, depth: int)
    requires
        depths_fit(t, depth),
    ensures
        lengths_from_depths(with_depths(t, depth), depth - t.length) == with_depths(t, depth),
    decreases t,
{
    let w = with_depths(t, depth);
    match t.left_child {
        Some(l) => {
            lemma_round_trip_rec(*l, depth + l.length);
        },
        None => {},
    }
    match t.right_child {
        Some(r) => {
            lemma_round_trip_rec(*r, depth + r.length);
        },
        None => {},
    }
}

/// Only depth fields differ between the two arenas.
pub open spec fn same_but_depths(a: Seq<FlatNode>, b: Seq<FlatNode>) -> bool {
    &&& a.len() == b.len()
    &&& forall|x: int| 0 <= x < a.len() ==> (#[trigger] a[x]).parent == b[x].parent
        && a[x].left_child == b[x].left_child && a[x].right_child == b[x].right_child && a[x].name
        == b[x].name && a[x].length == b[x].length
}

impl FlatTree {
    /// Clears the root's own branch length.
    pub fn zero_root_length(&mut self)
        requires
            old(self).root < old(self).nodes@.len(),
        ensures
            final(self).nodes@ == old(self).nodes@.update(
                old(self).root as int,
                (FlatNode { length: 0, ..old(self).nodes@[old(self).root as int] }),
            ),
            final(self).root == old(self).root,
    {
        let r = self.root;
        self.nodes[r].length = 0;
    }

    /// The sum of every slot's branch length, pruned slots included.
    pub fn total_length(&self) -> (r: u64)
        requires
            sum_lengths(self.nodes@, self.nodes@.len() as int) <= u64::MAX,
        ensures
            r == sum_lengths(self.nodes@, self.nodes@.len() as int),
    {
        let ghost ns = self.nodes@;
        let mut total: u64 = 0;
        let mut k: usize = 0;
        proof {
            lemma_sum_lengths_nonneg_all(ns);
        }
        while k < self.nodes.len()
            invariant
                k <= ns.len(),
                ns == self.nodes@,
                total == sum_lengths(ns, k as int),
                sum_lengths(ns, ns.len() as int) <= u64::MAX,
                forall|j: int| 0 <= j <= ns.len() ==> 0 <= #[trigger] sum_lengths(ns, j),
                forall|j: int, m: int| 0 <= j <= m <= ns.len() ==> #[trigger] sum_lengths(ns, j)
                    <= #[trigger] sum_lengths(ns, m),
            decreases ns.len() - k,
        {
            proof {
                assert(sum_lengths(ns, k as int + 1) == sum_lengths(ns, k as int) + ns[k
                    as int].length);
            }
            total = total + self.nodes[k].length;
            k = k + 1;
        }
        total
    }

    /// Assigns every reachable slot its depth: zero at the root, and each
    /// child deeper than its parent by its own branch length.  Returns
    /// `true` exactly when every reachable depth fits the machine range; on
    /// `false` the links are still intact but depths are unspecified.
    pub fn assign_depths(&mut self) -> (ok: bool)
        requires
            wf(*old(self)),
        ensures
            wf(*final(self)),
            final(self).root == old(self).root,
            same_but_depths(final(self).nodes@, old(self).nodes@),
            ok <==> (forall|x: int|
                0 <= x < old(self).nodes@.len() && live(*old(self), x) ==> pdepth(
                    old(self).nodes@,
                    x,
                ) <= u64::MAX),
            ok ==> (forall|x: int|
                0 <= x < old(self).nodes@.len() ==> (#[trigger] final(self).nodes@[x]).depth == (
                if live(*old(self), x) {
                    Some(pdepth(old(self).nodes@, x) as u64)
                } else {
                    old(self).nodes@[x].depth
                })),
    {
        let root = self.root;
        let ghost ns = self.nodes@;
        let len_bound = self.nodes.len();
        proof {
            assert(ns.len() == len_bound);
            assert(links_ok_at(ns, root as int));
            assert forall|x: int|
                0 <= x < ns.len() implies (live(*old(self), x) <==> subtree_of(
                ns,
                root as int,
                x,
            )) by {
                lemma_live_is_root_subtree(*old(self), x);
            }
        }
        let ok = assign_down(self, root, 0);
        proof {
            assert forall|x: int|
                0 <= x < ns.len() && subtree_of(ns, root as int, x) implies pdepth(ns, x) - pdepth(
                ns,
                root as int,
            ) == pdepth(ns, x) by {
                assert(pdepth(ns, root as int) == 0);
            }
        }
        ok
    }
}

/// A slot is live exactly when it sits in the root's subtree.
proof fn lemma_live_is_root_subtree(t: FlatTree, x: int)
    requires
        wf(t),
        t.nodes@.len() <= usize::MAX,
        0 <= x < t.nodes@.len(),
    ensures
        live(t, x) <==> subtree_of(t.nodes@, t.root as int, x),
{
    let ns = t.nodes@;
    assert(parents_in_range_here(ns)) by {
        assert forall|j: int|
            0 <= j < ns.len() && #[trigger] ns[j].parent is Some implies ns[j].parent->Some_0
            < ns.len() by {
            assert(links_ok_at(ns, j));
        }
    }
    if subtree_of(ns, t.root as int, x) {
        lemma_top_of_subtree(ns, t.root as int, x);
    }
    if live(t, x) {
        crate::tree::lemma_top_in_subtree(ns, x);
    }
}

/// Parent indices in range, spelled out for this module's lemmas.
pub open spec fn parents_in_range_here(nodes: Seq<FlatNode>) -> bool {
    crate::tree::parents_in_range(nodes)
}

/// The sum of the branch lengths of the first `k` slots.
pub open spec fn sum_lengths(nodes: Seq<FlatNode>, k: int) -> int
    decreases k,
{
    if k <= 0 {
        0
    } else {
        sum_lengths(nodes, k - 1) + nodes[k - 1].length
    }
}

proof fn lemma_sum_lengths_nonneg_all(nodes: Seq<FlatNode>)
    ensures
        forall|j: int| 0 <= j <= nodes.len() ==> 0 <= #[trigger] sum_lengths(nodes, j),
        forall|j: int, m: int| 0 <= j <= m <= nodes.len() ==> #[trigger] sum_lengths(nodes, j)
            <= #[trigger] sum_lengths(nodes, m),
{
    assert forall|j: int| 0 <= j <= nodes.len() implies 0 <= #[trigger] sum_lengths(nodes, j) by {
        lemma_sum_lengths_nonneg(nodes, j);
    }
    assert forall|j: int, m: int|
        0 <= j <= m <= nodes.len() implies #[trigger] sum_lengths(nodes, j)
        <= #[trigger] sum_lengths(nodes, m) by {
        lemma_sum_lengths_mono(nodes, j, m);
    }
}

proof fn lemma_sum_lengths_nonneg(nodes: Seq<FlatNode>, k: int)
    ensures
        0 <= sum_lengths(nodes, k),
    decreases k,
{
    if k > 0 {
        lemma_sum_lengths_nonneg(nodes, k - 1);
    }
}

proof fn lemma_sum_lengths_mono(nodes: Seq<FlatNode>, j: int, m: int)
    requires
        0 <= j <= m,
    ensures
        sum_lengths(nodes, j) <= sum_lengths(nodes, m),
    decreases m,
{
    if j < m {
        lemma_sum_lengths_mono(nodes, j, m - 1);
    }
}

/// The recursive worker of depth assignment: writes `depth` at `i` and walks
/// down, adding each branch length, refusing any sum that leaves the machine
/// range.
fn assign_down(t: &mut FlatTree, i: usize, depth: u64) -> (ok: bool)
    requires
        wf(*old(t)),
        i < old(t).nodes@.len(),
    ensures
        wf(*final(t)),
        final(t).root == old(t).root,
        same_but_depths(final(t).nodes@, old(t).nodes@),
        forall|x: int|
            0 <= x < old(t).nodes@.len() && !subtree_of(old(t).nodes@, i as int, x)
                ==> (#[trigger] final(t).nodes@[x]).depth == old(t).nodes@[x].depth,
        ok <==> (forall|x: int|
            0 <= x < old(t).nodes@.len() && #[trigger] subtree_of(old(t).nodes@, i as int, x)
                ==> depth + pdepth(old(t).nodes@, x) - pdepth(old(t).nodes@, i as int)
                <= u64::MAX),
        ok ==> (forall|x: int|
            0 <= x < old(t).nodes@.len() && #[trigger] subtree_of(old(t).nodes@, i as int, x)
                ==> final(t).nodes@[x].depth == Some(
                (depth + pdepth(old(t).nodes@, x) - pdepth(old(t).nodes@, i as int)) as u64,
            )),
    decreases old(t).nodes@.len() - chain_dist(old(t).nodes@, i as int),
{
    let ghost ns = t.nodes@;
    let ghost ii = i as int;
    let len_bound = t.nodes.len();
    proof {
        assert(ns.len() == len_bound);
        assert(links_ok_at(ns, ii));
        lemma_anc_antisym(ns, ii, ii);
        crate::tree::lemma_chain_le_fuel(ns, ii, ns.len() as nat);
    }
    let lc_opt = t.nodes[i].left_child;
    let rc_opt = t.nodes[i].right_child;
    t.nodes[i].depth = Some(depth);
    let ghost m1 = t.nodes@;
    proof {
        lemma_wf_links_unchanged(*old(t), *t);
        lemma_same_chain_all(m1, ns);
    }
    if let Some(c) = lc_opt {
        let cl = t.nodes[c].length;
        proof {
            lemma_down_step(ns, ii, c as int);
        }
        if cl > u64::MAX - depth {
            proof {
                lemma_down_overflow(ns, ii, c as int, depth as int);
            }
            return false;
        }
        let sub_ok = assign_down(t, c, depth + cl);
        proof {
            lemma_wf_links_unchanged(*old(t), *t);
            lemma_same_chain_all(t.nodes@, ns);
            lemma_subtree_translate(ns, ii, c as int, depth as int, cl as int);
        }
        if !sub_ok {
            proof {
                let xw = choose|x: int|
                    0 <= x < m1.len() && #[trigger] subtree_of(m1, c as int, x) && !(depth + cl
                        + pdepth(m1, x) - pdepth(m1, c as int) <= u64::MAX);
                assert(subtree_of(ns, ii, xw) && !(depth + pdepth(ns, xw) - pdepth(ns, ii)
                    <= u64::MAX));
            }
            return false;
        }
    }
    let ghost m2 = t.nodes@;
    if let Some(c) = rc_opt {
        let cl = t.nodes[c].length;
        proof {
            lemma_down_step(ns, ii, c as int);
        }
        if cl > u64::MAX - depth {
            proof {
                lemma_down_overflow(ns, ii, c as int, depth as int);
            }
            return false;
        }
        let sub_ok = assign_down(t, c, depth + cl);
        proof {
            lemma_wf_links_unchanged(*old(t), *t);
            lemma_same_chain_all(t.nodes@, ns);
            lemma_same_chain_all(m2, ns);
            lemma_subtree_translate(ns, ii, c as int, depth as int, cl as int);
        }
        if !sub_ok {
            proof {
                let xw = choose|x: int|
                    0 <= x < m2.len() && #[trigger] subtree_of(m2, c as int, x) && !(depth + cl
                        + pdepth(m2, x) - pdepth(m2, c as int) <= u64::MAX);
                assert(subtree_of(ns, ii, xw) && !(depth + pdepth(ns, xw) - pdepth(ns, ii)
                    <= u64::MAX));
            }
            return false;
        }
    }
    proof {
        let m3 = t.nodes@;
        lemma_same_chain_all(m2, ns);
        lemma_same_chain_all(m3, ns);
        if ns[ii].left_child is Some {
            let c = ns[ii].left_child->Some_0 as int;
            lemma_down_step(ns, ii, c);
            lemma_subtree_translate(ns, ii, c, depth as int, ns[c].length as int);
            lemma_anc_antisym(ns, ii, c);
        }
        if ns[ii].right_child is Some {
            let c = ns[ii].right_child->Some_0 as int;
            lemma_down_step(ns, ii, c);
            lemma_subtree_translate(ns, ii, c, depth as int, ns[c].length as int);
            lemma_anc_antisym(ns, ii, c);
        }
        assert forall|x: int|
            0 <= x < ns.len() && #[trigger] subtree_of(ns, ii, x) implies depth + pdepth(ns, x)
            - pdepth(ns, ii) <= u64::MAX && m3[x].depth == Some(
            (depth + pdepth(ns, x) - pdepth(ns, ii)) as u64,
        ) by {
            if x == ii {
            } else {
                lemma_subtree_decompose(ns, ii, x);
                let c = choose|c: int|
                    0 <= c < ns.len() && (ns[ii].left_child == Some(c as usize)
                        || ns[ii].right_child == Some(c as usize)) && #[trigger] subtree_of(
                        ns,
                        c,
                        x,
                    );
                lemma_down_step(ns, ii, c);
            }
        }
    }
    true
}

/// The parent-to-child facts one descent step needs: the child is in range,
/// in the parent's subtree, one step deeper, one branch longer.
proof fn lemma_down_step(ns: Seq<FlatNode>, i: int, c: int)
    requires
        0 <= c <= usize::MAX,

        wf_seq(ns),
        ns.len() <= usize::MAX,
        0 <= i < ns.len(),
        ns[i].left_child == Some(c as usize) || ns[i].right_child == Some(c as usize),
    ensures
        0 <= c < ns.len(),
        c != i,
        ns[c].parent == Some(i as usize),
        subtree_of(ns, c, c),
        is_ancestor_of(ns, i, c),
        pdepth(ns, c) == pdepth(ns, i) + ns[c].length,
        chain_dist(ns, c) == chain_dist(ns, i) + 1,
        chain_dist(ns, c) <= ns.len(),
{
    assert(links_ok_at(ns, i));
    assert(links_ok_at(ns, c));
    assert(parents_in_range_here(ns)) by {
        assert forall|j: int|
            0 <= j < ns.len() && #[trigger] ns[j].parent is Some implies ns[j].parent->Some_0
            < ns.len() by {
            assert(links_ok_at(ns, j));
        }
    }
    lemma_anc_step(ns, c);
    lemma_path_step(ns, c);
    lemma_chain_dist_step(ns, c);
    crate::tree::lemma_chain_le_fuel(ns, c, ns.len() as nat);
}

/// Well-formedness stated over the node sequence together with any root:
/// the pieces the descent lemmas need.
pub open spec fn wf_seq(ns: Seq<FlatNode>) -> bool {
    &&& crate::tree::acyclic(ns)
    &&& forall|j: int| 0 <= j < ns.len() ==> #[trigger] links_ok_at(ns, j)
}

/// An overflowing child is the witness that the subtree cannot be assigned.
proof fn lemma_down_overflow(ns: Seq<FlatNode>, i: int, c: int, depth: int)
    requires
        0 <= c <= usize::MAX,

        wf_seq(ns),
        ns.len() <= usize::MAX,
        0 <= i < ns.len(),
        ns[i].left_child == Some(c as usize) || ns[i].right_child == Some(c as usize),
        depth + ns[c].length > u64::MAX,
    ensures
        !(forall|x: int|
            0 <= x < ns.len() && #[trigger] subtree_of(ns, i, x) ==> depth + pdepth(ns, x)
                - pdepth(ns, i) <= u64::MAX),
{
    lemma_down_step(ns, i, c);
    assert(subtree_of(ns, i, c)) by {
        lemma_anc_step(ns, c);
    }
    assert(depth + pdepth(ns, c) - pdepth(ns, i) > u64::MAX);
}

/// Lifts subtree membership and relative depths of a child's subtree to the
/// parent's coordinates, and across arenas with equal links.
proof fn lemma_subtree_translate(ns: Seq<FlatNode>, i: int, c: int, depth: int, cl: int)
    requires
        0 <= c <= usize::MAX,

        wf_seq(ns),
        ns.len() <= usize::MAX,
        0 <= i < ns.len(),
        ns[i].left_child == Some(c as usize) || ns[i].right_child == Some(c as usize),
        cl == ns[c].length,
    ensures
        forall|x: int| 0 <= x < ns.len() && #[trigger] subtree_of(ns, c, x) ==> subtree_of(ns, i, x)
            && (depth + cl) + pdepth(ns, x) - pdepth(ns, c) == depth + pdepth(ns, x) - pdepth(
            ns,
            i,
        ),
{
    lemma_down_step(ns, i, c);
    assert(parents_in_range_here(ns)) by {
        assert forall|j: int|
            0 <= j < ns.len() && #[trigger] ns[j].parent is Some implies ns[j].parent->Some_0
            < ns.len() by {
            assert(links_ok_at(ns, j));
        }
    }
    assert forall|x: int| 0 <= x < ns.len() && #[trigger] subtree_of(ns, c, x) implies subtree_of(
        ns,
        i,
        x,
    ) by {
        lemma_subtree_embed(ns, i, c, x);
    }
}

/// Strictly increasing left to right.
pub open spec fn strictly_increasing(s: Seq<u64>) -> bool {
    forall|i: int, j: int| 0 <= i < j < s.len() ==> s[i] < s[j]
}

/// The absolute difference of two times.
pub open spec fn time_dist(a: u64, b: u64) -> int {
    if a <= b {
        b - a
    } else {
        a - b
    }
}

/// `r` is the index of the grid entry nearest to `v`, ties going to the
/// lower index.
pub open spec fn is_closest(s: Seq<u64>, v: u64, r: int) -> bool {
    &&& 0 <= r < s.len()
    &&& forall|j: int| 0 <= j < s.len() ==> time_dist(s[r], v) <= #[trigger] time_dist(s[j], v)
    &&& forall|j: int| 0 <= j < r ==> time_dist(s[r], v) < #[trigger] time_dist(s[j], v)
}

/// `sub` is the sorted deduplicated list of the depths present in the arena.
pub open spec fn is_subdivision_of(nodes: Seq<FlatNode>, sub: Seq<u64>) -> bool {
    &&& strictly_increasing(sub)
    &&& forall|v: u64| #[trigger] sub.contains(v) <==> exists|i: int|
        0 <= i < nodes.len() && (#[trigger] nodes[i]).depth == Some(v)
}

/// The interval widths of a subdivision: zero first, then each step's width.
pub open spec fn diffs(sub: Seq<u64>) -> Seq<u64> {
    Seq::new(
        sub.len(),
        |i: int|
            if i == 0 {
                0u64
            } else {
                (sub[i] - sub[i - 1]) as u64
            },
    )
}

/// Two strictly increasing sequences over the same value set are equal.
pub proof fn lemma_subdivision_unique(a: Seq<u64>, b: Seq<u64>)
    requires
        strictly_increasing(a),
        strictly_increasing(b),
        forall|v: u64| #[trigger] a.contains(v) <==> #[trigger] b.contains(v),
    ensures
        a == b,
    decreases a.len(),
{
    if a.len() == 0 {
        if b.len() > 0 {
            assert(b.contains(b[0]));
            assert(a.contains(b[0]));
        }
        assert(a =~= b);
    } else {
        assert(a.contains(a[0]));
        assert(b.contains(a[0]));
        let k = choose|k: int| 0 <= k < b.len() && b[k] == a[0];
        assert(b.contains(b[0]));
        assert(a.contains(b[0]));
        let m = choose|m: int| 0 <= m < a.len() && a[m] == b[0];
        assert(a[0] == b[0]);
        let ar = a.subrange(1, a.len() as int);
        let br = b.subrange(1, b.len() as int);
        assert forall|v: u64| #[trigger] ar.contains(v) <==> #[trigger] br.contains(v) by {
            lemma_rest_contains(a, v);
            lemma_rest_contains(b, v);
        }
        lemma_subdivision_unique(ar, br);
        assert(a =~= seq![a[0]] + ar);
        assert(b =~= seq![b[0]] + br);
    }
}

/// In a strictly increasing sequence, the tail holds exactly the values
/// greater than the head.
proof fn lemma_rest_contains(a: Seq<u64>, v: u64)
    requires
        strictly_increasing(a),
        a.len() > 0,
    ensures
        a.subrange(1, a.len() as int).contains(v) <==> (a.contains(v) && v > a[0]),
{
    let ar = a.subrange(1, a.len() as int);
    if ar.contains(v) {
        let k = choose|k: int| 0 <= k < ar.len() && ar[k] == v;
        assert(a[k + 1] == v);
        assert(a.contains(v));
    }
    if a.contains(v) && v > a[0] {
        let k = choose|k: int| 0 <= k < a.len() && a[k] == v;
        assert(k > 0);
        assert(ar[k - 1] == v);
        assert(ar.contains(v));
    }
}

/// Two strictly increasing index sequences over the same value set are
/// equal.
pub proof fn lemma_idx_seq_unique(a: Seq<usize>, b: Seq<usize>)
    requires
        strictly_increasing_idx(a),
        strictly_increasing_idx(b),
        forall|v: usize| #[trigger] a.contains(v) <==> #[trigger] b.contains(v),
    ensures
        a == b,
    decreases a.len(),
{
    if a.len() == 0 {
        if b.len() > 0 {
            assert(b.contains(b[0]));
            assert(a.contains(b[0]));
        }
        assert(a =~= b);
    } else {
        assert(a.contains(a[0]));
        assert(b.contains(a[0]));
        let k = choose|k: int| 0 <= k < b.len() && b[k] == a[0];
        assert(b.contains(b[0]));
        assert(a.contains(b[0]));
        let m = choose|m: int| 0 <= m < a.len() && a[m] == b[0];
        assert(a[0] == b[0]);
        let ar = a.subrange(1, a.len() as int);
        let br = b.subrange(1, b.len() as int);
        assert forall|v: usize| #[trigger] ar.contains(v) <==> #[trigger] br.contains(v) by {
            lemma_rest_contains_idx(a, v);
            lemma_rest_contains_idx(b, v);
        }
        lemma_idx_seq_unique(ar, br);
        assert(a =~= seq![a[0]] + ar);
        assert(b =~= seq![b[0]] + br);
    }
}

/// In a strictly increasing index sequence, the tail holds exactly the
/// values greater than the head.
proof fn lemma_rest_contains_idx(a: Seq<usize>, v: usize)
    requires
        strictly_increasing_idx(a),
        a.len() > 0,
    ensures
        a.subrange(1, a.len() as int).contains(v) <==> (a.contains(v) && v > a[0]),
{
    let ar = a.subrange(1, a.len() as int);
    if ar.contains(v) {
        let k = choose|k: int| 0 <= k < ar.len() && ar[k] == v;
        assert(a[k + 1] == v);
        assert(a.contains(v));
    }
    if a.contains(v) && v > a[0] {
        let k = choose|k: int| 0 <= k < a.len() && a[k] == v;
        assert(k > 0);
        assert(ar[k - 1] == v);
        assert(ar.contains(v));
    }
}

/// Inserts a time into a strictly increasing vector, keeping it strictly
/// increasing; a value already present is left alone.
fn insert_unique_sorted(r: &mut Vec<u64>, x: u64)
    requires
        strictly_increasing(old(r)@),
    ensures
        strictly_increasing(final(r)@),
        forall|v: u64| #[trigger] final(r)@.contains(v) <==> (old(r)@.contains(v) || v == x),
{
    let ghost orig = r@;
    let mut i: usize = 0;
    while i < r.len() && r[i] < x
        invariant
            orig == r@,
            i <= r@.len(),
            strictly_increasing(r@),
            forall|j: int| 0 <= j < i ==> r@[j] < x,
        decreases r@.len() - i,
    {
        i = i + 1;
    }
    if i < r.len() {
        let cur = r[i];
        if cur == x {
            proof {
                assert(r@.contains(x)) by {
                    assert(r@[i as int] == x);
                }
            }
            return ;
        }
    }
    r.insert(i, x);
    proof {
        let newv = r@;
        assert forall|v: u64| #[trigger] newv.contains(v) implies (orig.contains(v) || v == x) by {
            let k = choose|k: int| 0 <= k < newv.len() && newv[k] == v;
            if k < i {
                assert(orig[k] == v);
            } else if k > i {
                assert(orig[k - 1] == v);
            }
        }
        assert forall|v: u64| (orig.contains(v) || v == x) implies #[trigger] newv.contains(v) by {
            if v == x {
                assert(newv[i as int] == x);
            } else if orig.contains(v) {
                let k = choose|k: int| 0 <= k < orig.len() && orig[k] == v;
                if k < i {
                    assert(newv[k] == v);
                } else {
                    assert(newv[k + 1] == v);
                }
            }
        }
    }
}

impl FlatTree {
    /// The timeline subdivision: every depth that occurs in the arena, each
    /// once, in increasing order.
    pub fn make_subdivision(&self) -> (r: Vec<u64>)
        ensures
            is_subdivision_of(self.nodes@, r@),
    {
        let ns = &self.nodes;
        let mut r: Vec<u64> = Vec::new();
        let mut k: usize = 0;
        while k < ns.len()
            invariant
                ns@ == self.nodes@,
                k <= ns@.len(),
                strictly_increasing(r@),
                forall|v: u64| #[trigger] r@.contains(v) <==> exists|i: int|
                    0 <= i < k && (#[trigger] ns@[i]).depth == Some(v),
            decreases ns@.len() - k,
        {
            match ns[k].depth {
                Some(d) => {
                    insert_unique_sorted(&mut r, d);
                    proof {
                        assert(ns@[k as int].depth == Some(d));
                    }
                },
                None => {},
            }
            k = k + 1;
        }
        r
    }

    /// The interval widths of the timeline: the first entry is zero, and
    /// each later entry is the gap between two neighbouring subdivision
    /// times.
    pub fn make_intervals(&self) -> (r: Vec<u64>)
        requires
            exists|i: int| 0 <= i < self.nodes@.len() && (#[trigger] self.nodes@[i]).depth is Some,
        ensures
            forall|sub: Seq<u64>| is_subdivision_of(self.nodes@, sub) ==> r@ == diffs(sub),
    {
        let sub = self.make_subdivision();
        proof {
            let iw = choose|i: int|
                0 <= i < self.nodes@.len() && (#[trigger] self.nodes@[i]).depth is Some;
            let dv = self.nodes@[iw].depth->Some_0;
            assert(sub@.contains(dv));
        }
        let mut r: Vec<u64> = Vec::new();
        r.push(0);
        let mut k: usize = 1;
        while k < sub.len()
            invariant
                is_subdivision_of(self.nodes@, sub@),
                1 <= k <= sub@.len() || (sub@.len() < 1 && k == 1),
                r@.len() == k,
                r@[0] == 0,
                forall|j: int| 1 <= j < k ==> r@[j] == sub@[j] - sub@[j - 1],
            decreases sub@.len() - k,
        {
            let w = sub[k] - sub[k - 1];
            r.push(w);
            k = k + 1;
        }
        proof {
            assert forall|s2: Seq<u64>| is_subdivision_of(self.nodes@, s2) implies r@ == diffs(
                s2,
            ) by {
                lemma_subdivision_unique(s2, sub@);
                assert(r@ =~= diffs(sub@));
            }
        }
        r
    }

    /// The subdivision index whose time is nearest to `value`; when two grid
    /// times are equally near, the lower index.
    pub fn find_closest_index(&self, depths: &Vec<u64>, value: u64) -> (r: usize)
        requires
            strictly_increasing(depths@),
            depths@.len() >= 1,
        ensures
            is_closest(depths@, value, r as int),
    {
        let n = depths.len();
        // Lower bound: the first index whose time is at least `value`.
        let mut lo: usize = 0;
        let mut hi: usize = n;
        while lo < hi
            invariant
                lo <= hi <= n,
                n == depths@.len(),
                strictly_increasing(depths@),
                forall|j: int| 0 <= j < lo ==> depths@[j] < value,
                forall|j: int| hi <= j < n ==> depths@[j] >= value,
            decreases hi - lo,
        {
            let mid = lo + (hi - lo) / 2;
            if depths[mid] < value {
                lo = mid + 1;
            } else {
                hi = mid;
            }
        }
        if lo == 0 {
            return 0;
        }
        if lo == n {
            return n - 1;
        }
        let below = value - depths[lo - 1];
        let above = depths[lo] - value;
        if below <= above {
            lo - 1
        } else {
            lo
        }
    }
}

/// Strictly increasing indices, left to right.
pub open spec fn strictly_increasing_idx(s: Seq<usize>) -> bool {
    forall|i: int, j: int| 0 <= i < j < s.len() ==> s[i] < s[j]
}

/// The birth time of the edge above node `i`: its depth minus its branch
/// length.
pub open spec fn edge_start(nodes: Seq<FlatNode>, i: int) -> int {
    nodes[i].depth->Some_0 - nodes[i].length
}

/// The end time of the edge above node `i`: its depth.
pub open spec fn edge_end(nodes: Seq<FlatNode>, i: int) -> int {
    nodes[i].depth->Some_0 as int
}

/// The arena's times all lie on the grid: every node has a depth at least
/// its length, and both ends of its edge are grid times.
pub open spec fn times_on_grid(nodes: Seq<FlatNode>, sub: Seq<u64>) -> bool {
    forall|i: int| 0 <= i < nodes.len() ==> (#[trigger] nodes[i]).depth is Some
        && nodes[i].length <= nodes[i].depth->Some_0 && sub.contains(nodes[i].depth->Some_0)
        && sub.contains((nodes[i].depth->Some_0 - nodes[i].length) as u64)
}

/// The nodes alive on interval `j` among the first `k`: every one whose
/// snapped birth comes before `j` and whose snapped end does not, in
/// increasing order.
pub open spec fn spec_alive_row(starts: Seq<usize>, ends: Seq<usize>, j: int, k: int) -> Seq<usize>
    decreases k,
{
    if k <= 0 {
        seq![]
    } else {
        let rest = spec_alive_row(starts, ends, j, k - 1);
        if starts[k - 1] < j && j <= ends[k - 1] {
            rest + seq![(k - 1) as usize]
        } else {
            rest
        }
    }
}

/// Alive-row entries stay below the scanned bound.
pub proof fn lemma_alive_row_bound(starts: Seq<usize>, ends: Seq<usize>, j: int, k: int)
    requires
        0 <= k <= starts.len(),
        k <= usize::MAX,
    ensures
        forall|x: int|
            0 <= x < spec_alive_row(starts, ends, j, k).len() ==> #[trigger] spec_alive_row(
                starts,
                ends,
                j,
                k,
            )[x] < k,
    decreases k,
{
    if k > 0 {
        lemma_alive_row_bound(starts, ends, j, k - 1);
        let rest = spec_alive_row(starts, ends, j, k - 1);
        let r = spec_alive_row(starts, ends, j, k);
        assert forall|x: int| 0 <= x < r.len() implies #[trigger] r[x] < k by {
            if x < rest.len() {
                assert(r[x] == rest[x]);
                assert(rest[x] < k - 1);
            }
        }
    }
}

/// Alive-row entries increase left to right.
pub proof fn lemma_alive_row_sorted(starts: Seq<usize>, ends: Seq<usize>, j: int, k: int)
    requires
        0 <= k <= starts.len(),
        k <= usize::MAX,
    ensures
        strictly_increasing_idx(spec_alive_row(starts, ends, j, k)),
    decreases k,
{
    if k > 0 {
        lemma_alive_row_sorted(starts, ends, j, k - 1);
        lemma_alive_row_bound(starts, ends, j, k - 1);
        let rest = spec_alive_row(starts, ends, j, k - 1);
        let r = spec_alive_row(starts, ends, j, k);
        assert forall|a: int, b: int| 0 <= a < b < r.len() implies r[a] < r[b] by {
            if b < rest.len() {
                assert(r[a] == rest[a] && r[b] == rest[b]);
            } else if a < rest.len() && b == rest.len() {
                assert(r[a] == rest[a]);
                assert(rest[a] < k - 1);
            }
        }
    }
}

/// The alive row holds exactly the nodes whose snapped edge covers the
/// interval.
pub proof fn lemma_alive_row_members(starts: Seq<usize>, ends: Seq<usize>, j: int, k: int)
    requires
        0 <= k <= starts.len(),
        k <= usize::MAX,
    ensures
        forall|ki: int|
            #![trigger starts[ki]]
            0 <= ki < k ==> (spec_alive_row(starts, ends, j, k).contains(ki as usize) <==> (
            starts[ki] < j && j <= ends[ki])),
    decreases k,
{
    if k > 0 {
        lemma_alive_row_members(starts, ends, j, k - 1);
        lemma_alive_row_bound(starts, ends, j, k - 1);
        let rest = spec_alive_row(starts, ends, j, k - 1);
        let r = spec_alive_row(starts, ends, j, k);
        assert forall|ki: int|
            #![trigger starts[ki]]
            0 <= ki < k implies (r.contains(ki as usize) <==> (starts[ki] < j && j
            <= ends[ki])) by {
            if ki == k - 1 {
                if starts[ki] < j && j <= ends[ki] {
                    assert(r[r.len() - 1] == ki as usize);
                    assert(r.contains(ki as usize));
                } else {
                    if r.contains(ki as usize) {
                        let x = choose|x: int| 0 <= x < r.len() && r[x] == ki as usize;
                        assert(rest[x] < k - 1);
                        assert(false);
                    }
                }
            } else {
                if starts[ki] < j && j <= ends[ki] {
                    assert(rest.contains(ki as usize));
                    let x = choose|x: int| 0 <= x < rest.len() && rest[x] == ki as usize;
                    assert(r[x] == ki as usize);
                    assert(r.contains(ki as usize));
                } else {
                    if r.contains(ki as usize) {
                        let x = choose|x: int| 0 <= x < r.len() && r[x] == ki as usize;
                        if x < rest.len() {
                            assert(rest.contains(ki as usize));
                            assert(false);
                        } else {
                            assert(r[x] == (k - 1) as usize);
                            assert(false);
                        }
                    }
                }
            }
        }
    }
}

/// Collects the alive row of interval `j` over the first `n` nodes.
fn alive_row(starts: &Vec<usize>, ends: &Vec<usize>, j: usize, n: usize) -> (row: Vec<usize>)
    requires
        starts@.len() == n,
        ends@.len() == n,
    ensures
        row@ == spec_alive_row(starts@, ends@, j as int, n as int),
        strictly_increasing_idx(row@),
        forall|ki: int|
            #![trigger starts@[ki]]
            0 <= ki < n ==> (row@.contains(ki as usize) <==> (starts@[ki] < j && j <= ends@[ki])),
        forall|v: usize| #[trigger] row@.contains(v) ==> v < n,
{
    let mut row: Vec<usize> = Vec::new();
    let mut k: usize = 0;
    while k < n
        invariant
            starts@.len() == n,
            ends@.len() == n,
            k <= n,
            row@ == spec_alive_row(starts@, ends@, j as int, k as int),
        decreases n - k,
    {
        let cond = starts[k] < j && j <= ends[k];
        if cond {
            row.push(k);
            proof {
                assert(row@ =~= spec_alive_row(starts@, ends@, j as int, k + 1));
            }
        } else {
            proof {
                assert(row@ =~= spec_alive_row(starts@, ends@, j as int, k + 1));
            }
        }
        k = k + 1;
    }
    proof {
        lemma_alive_row_bound(starts@, ends@, j as int, n as int);
        lemma_alive_row_sorted(starts@, ends@, j as int, n as int);
        lemma_alive_row_members(starts@, ends@, j as int, n as int);
        assert forall|v: usize| #[trigger] row@.contains(v) implies v < n by {
            let x = choose|x: int| 0 <= x < row@.len() && row@[x] == v;
        }
    }
    row
}

impl FlatTree {
    /// For each timeline interval, the nodes whose edge is alive on it: node
    /// `v` belongs to interval `j` exactly when the interval's left end is
    /// within `v`'s edge, at or after its birth and strictly before its end.
    /// The entry at index zero is always empty, and each entry lists its
    /// nodes in increasing order, none twice.
    #[verifier::rlimit(100)]
    pub fn find_contemporaneity(&self, depths: &Vec<u64>) -> (r: Vec<Vec<usize>>)
        requires
            strictly_increasing(depths@),
            depths@.len() >= 1,
            times_on_grid(self.nodes@, depths@),
        ensures
            r@.len() == depths@.len(),
            forall|j: int| 0 <= j < r@.len() ==> strictly_increasing_idx((#[trigger] r@[j])@),
            forall|j: int, i: int|
                #![trigger r@[j], edge_start(self.nodes@, i)]
                0 <= j < r@.len() && 0 <= i < self.nodes@.len() ==> (r@[j]@.contains(i as usize)
                    <==> (1 <= j && edge_start(self.nodes@, i) <= depths@[j - 1] && depths@[j - 1]
                    < edge_end(self.nodes@, i))),
            forall|j: int, v: usize| 0 <= j < r@.len() && #[trigger] r@[j]@.contains(v) ==> v
                < self.nodes@.len(),
    {
        let ghost ns = self.nodes@;
        let n = self.nodes.len();
        let m = depths.len();
        // First pass: snap each edge's two end times to the grid.
        let mut starts: Vec<usize> = Vec::new();
        let mut ends: Vec<usize> = Vec::new();
        let mut i: usize = 0;
        while i < n
            invariant
                ns == self.nodes@,
                n == ns.len(),
                m == depths@.len(),
                strictly_increasing(depths@),
                depths@.len() >= 1,
                times_on_grid(ns, depths@),
                i <= n,
                starts@.len() == i,
                ends@.len() == i,
                forall|k: int| 0 <= k < i ==> (#[trigger] starts@[k]) < m && depths@[
                    starts@[k] as int] == edge_start(ns, k),
                forall|k: int| 0 <= k < i ==> (#[trigger] ends@[k]) < m && depths@[
                    ends@[k] as int] == edge_end(ns, k),
            decreases n - i,
        {
            let d = self.nodes[i].depth.unwrap();
            let start_time = d - self.nodes[i].length;
            let s = self.find_closest_index(depths, start_time);
            let e = self.find_closest_index(depths, d);
            proof {
                lemma_closest_exact(depths@, start_time, s as int);
                lemma_closest_exact(depths@, d, e as int);
            }
            starts.push(s);
            ends.push(e);
            i = i + 1;
        }
        // Second pass: an edge is alive on every interval after its snapped
        // birth, up to and including its snapped end.
        let mut result: Vec<Vec<usize>> = Vec::new();
        let mut j: usize = 0;
        while j < m
            invariant
                ns == self.nodes@,
                n == ns.len(),
                m == depths@.len(),
                strictly_increasing(depths@),
                starts@.len() == n,
                ends@.len() == n,
                forall|k: int| 0 <= k < n ==> (#[trigger] starts@[k]) < m && depths@[
                    starts@[k] as int] == edge_start(ns, k),
                forall|k: int| 0 <= k < n ==> (#[trigger] ends@[k]) < m && depths@[
                    ends@[k] as int] == edge_end(ns, k),
                j <= m,
                result@.len() == j,
                forall|q: int| 0 <= q < j ==> strictly_increasing_idx((#[trigger] result@[q])@),
                forall|q: int, k: int|
                    #![trigger result@[q], starts@[k]]
                    0 <= q < j && 0 <= k < n ==> (result@[q]@.contains(k as usize) <==> (
                    starts@[k] < q && q <= ends@[k])),
                forall|q: int, v: usize| 0 <= q < j && #[trigger] result@[q]@.contains(v) ==> v
                    < n,
            decreases m - j,
        {
            let row = alive_row(&starts, &ends, j, n);
            result.push(row);
            j = j + 1;
        }
        proof {
            assert forall|q: int, k: int|
                #![trigger result@[q], edge_start(ns, k)]
                0 <= q < result@.len() && 0 <= k < n implies (result@[q]@.contains(k as usize)
                <==> (1 <= q && edge_start(ns, k) <= depths@[q - 1] && depths@[q - 1] < edge_end(
                ns,
                k,
            ))) by {
                let s = starts@[k] as int;
                let e = ends@[k] as int;
                if s < q && q <= e {
                    assert(depths@[q - 1] >= depths@[s]);
                    assert(depths@[q - 1] < depths@[e]);
                }
                if 1 <= q && edge_start(ns, k) <= depths@[q - 1] && depths@[q - 1] < edge_end(
                    ns,
                    k,
                ) {
                    if q - 1 < s {
                        assert(depths@[q - 1] < depths@[s]);
                    }
                    if q > e {
                        assert(depths@[e] <= depths@[q - 1]);
                    }
                }
            }
        }
        result
    }

    /// How many edges are alive on each interval.
    pub fn number_of_species(&self, contemporaneity: &Vec<Vec<usize>>) -> (r: Vec<usize>)
        ensures
            r@.len() == contemporaneity@.len(),
            forall|j: int| 0 <= j < r@.len() ==> r@[j] == (#[trigger] contemporaneity@[j])@.len(),
    {
        let mut r: Vec<usize> = Vec::new();
        let mut j: usize = 0;
        while j < contemporaneity.len()
            invariant
                j <= contemporaneity@.len(),
                r@.len() == j,
                forall|q: int| 0 <= q < j ==> r@[q] == (#[trigger] contemporaneity@[q])@.len(),
            decreases contemporaneity@.len() - j,
        {
            r.push(contemporaneity[j].len());
            j = j + 1;
        }
        r
    }
}

/// A grid value's nearest grid index holds exactly that value.
proof fn lemma_closest_exact(s: Seq<u64>, v: u64, r: int)
    requires
        is_closest(s, v, r),
        s.contains(v),
    ensures
        s[r] == v,
{
    let k = choose|k: int| 0 <= k < s.len() && s[k] == v;
    assert(time_dist(s[k], v) == 0);
    assert(time_dist(s[r], v) <= 0);
}

/// Subtree membership, path depths and chain distances agree between arenas
/// that differ only in depths.
pub proof fn lemma_same_chain_pub(a: Seq<FlatNode>, b: Seq<FlatNode>)
    requires
        same_but_depths(a, b),
    ensures
        forall|x: int| #![trigger pdepth(a, x)] #![trigger pdepth(b, x)] pdepth(a, x) == pdepth(
            b,
            x,
        ),
{
    lemma_same_chain_all(a, b);
}

/// Subtree membership, path depths and chain distances agree between arenas
/// that differ only in depths.
proof fn lemma_same_chain_all(a: Seq<FlatNode>, b: Seq<FlatNode>)
    requires
        same_but_depths(a, b),
    ensures
        forall|x: int, y: int|
            #![trigger subtree_of(a, y, x)]
            #![trigger subtree_of(b, y, x)]
            subtree_of(a, y, x) == subtree_of(b, y, x),
        forall|x: int| #![trigger pdepth(a, x)] #![trigger pdepth(b, x)] pdepth(a, x) == pdepth(
            b,
            x,
        ),
        forall|x: int|
            #![trigger chain_dist(a, x)]
            #![trigger chain_dist(b, x)]
            chain_dist(a, x) == chain_dist(b, x),
{
    assert forall|x: int, y: int| #[trigger] subtree_of(a, y, x) == subtree_of(b, y, x) by {
        lemma_anc_same_links(a, b, y, x, a.len() as nat);
    }
    assert forall|x: int| #[trigger] pdepth(a, x) == pdepth(b, x) by {
        lemma_chain_same_links(a, b, x, a.len() as nat);
    }
    assert forall|x: int| #[trigger] chain_dist(a, x) == chain_dist(b, x) by {
        lemma_chain_same_links(a, b, x, a.len() as nat);
    }
}

} // verus!
