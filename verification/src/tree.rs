//! The two tree representations: an owned recursive node and a flat arena
//! of records linked by indices, together with the arena's well-formedness
//! predicates (binary shape, link reciprocity, acyclic parent chains).

use vstd::prelude::*;

verus! {

/// One record of the flat (arena) representation.  Children and parent are
/// indices into the owning tree's node vector; `None` marks an absent
/// neighbour.  `depth` is the time from the root, `length` the time from the
/// parent, both in fixed-point micro-units.
#[derive(Clone, Debug)]
pub struct FlatNode {
    pub name: String,
    pub left_child: Option<usize>,
    pub right_child: Option<usize>,
    pub parent: Option<usize>,
    pub depth: Option<u64>,
    pub length: u64,
}

/// A flat tree: a vector of records and the index of the root.  Slots of
/// pruned nodes stay in the vector (indices are stable) but are unlinked.
#[derive(Clone, Debug)]
pub struct FlatTree {
    pub nodes: Vec<FlatNode>,
    pub root: usize,
}

/// The owned recursive representation, used at the text boundary.
#[derive(Debug)]
pub struct Node {
    pub name: String,
    pub left_child: Option<Box<Node>>,
    pub right_child: Option<Box<Node>>,
    pub depth: Option<u64>,
    pub length: u64,
}

/// The recursive tree is binary: zero or two children at every node.
pub open spec fn node_binary(t: Node) -> bool
    decreases t,
{
    &&& (t.left_child is Some <==> t.right_child is Some)
    &&& (t.left_child matches Some(l) ==> node_binary(*l))
    &&& (t.right_child matches Some(r) ==> node_binary(*r))
}

/// Orders in which a tree can be walked; the left child always comes before
/// the right one.
#[derive(Clone, Copy, Debug)]
pub enum TraversalOrder {
    PreOrder,
    InOrder,
    PostOrder,
}

impl FlatTree {
    /// Number of slots in the arena, pruned slots included.
    pub fn len(&self) -> (n: usize)
        ensures
            n == self.nodes@.len(),
    {
        self.nodes.len()
    }
}

/// The structural conditions on one slot `i` of the arena: indices in range,
/// child links answered by the matching parent link and vice versa, zero or
/// two children, and the two children distinct.
pub open spec fn links_ok_at(nodes: Seq<FlatNode>, i: int) -> bool {
    let n = nodes[i];
    &&& (n.left_child matches Some(l) ==> l < nodes.len() && nodes[l as int].parent == Some(i as usize))
    &&& (n.right_child matches Some(r) ==> r < nodes.len() && nodes[r as int].parent == Some(i as usize))
    &&& (n.left_child is Some <==> n.right_child is Some)
    &&& (n.left_child is Some ==> n.left_child != n.right_child)
    &&& (n.parent matches Some(p) ==> p < nodes.len()
            && (nodes[p as int].left_child == Some(i as usize)
                || nodes[p as int].right_child == Some(i as usize)))
}

/// Link reciprocity, index validity and the binary shape, over every slot,
/// plus a parentless root.
pub open spec fn links_ok(t: FlatTree) -> bool {
    &&& t.root < t.nodes@.len()
    &&& t.nodes@[t.root as int].parent is None
    &&& forall|i: int| 0 <= i < t.nodes@.len() ==> #[trigger] links_ok_at(t.nodes@, i)
}

/// Length of the parent chain from slot `i` up to a parentless slot, if the
/// chain ends within `fuel` steps; `None` otherwise.
pub open spec fn chain_len(nodes: Seq<FlatNode>, i: int, fuel: nat) -> Option<nat>
    decreases fuel,
{
    if !(0 <= i < nodes.len()) {
        None
    } else {
        match nodes[i].parent {
            None => Some(0),
            Some(p) => {
                if fuel == 0 {
                    None
                } else {
                    match chain_len(nodes, p as int, (fuel - 1) as nat) {
                        Some(k) => Some(k + 1),
                        None => None,
                    }
                }
            },
        }
    }
}

/// Acyclicity: from every slot, following parents reaches a parentless slot
/// in at most as many steps as there are slots.
pub open spec fn acyclic(nodes: Seq<FlatNode>) -> bool {
    forall|i: int| 0 <= i < nodes.len() ==> #[trigger] chain_len(nodes, i, nodes.len() as nat) is Some
}

/// Well-formedness of a flat tree: the invariant every public operation
/// preserves.
pub open spec fn wf(t: FlatTree) -> bool {
    links_ok(t) && acyclic(t.nodes@)
}

/// The number of parent-chain steps from slot `i` of a well-formed arena.
pub open spec fn chain_dist(nodes: Seq<FlatNode>, i: int) -> nat {
    chain_len(nodes, i, nodes.len() as nat)->Some_0
}

/// A chain that ends within the given fuel uses at most that many steps.
pub proof fn lemma_chain_le_fuel(nodes: Seq<FlatNode>, i: int, fuel: nat)
    requires
        chain_len(nodes, i, fuel) is Some,
    ensures
        chain_len(nodes, i, fuel)->Some_0 <= fuel,
    decreases fuel,
{
    if 0 <= i < nodes.len() {
        match nodes[i].parent {
            None => {},
            Some(p) => {
                lemma_chain_le_fuel(nodes, p as int, (fuel - 1) as nat);
            },
        }
    }
}

/// Once a chain ends, adding fuel changes nothing: any fuel at least the
/// chain's length gives the same answer.
pub proof fn lemma_chain_stable(nodes: Seq<FlatNode>, i: int, f1: nat, f2: nat)
    requires
        chain_len(nodes, i, f1) is Some,
        f2 >= chain_len(nodes, i, f1)->Some_0,
    ensures
        chain_len(nodes, i, f2) == chain_len(nodes, i, f1),
    decreases f1,
{
    if 0 <= i < nodes.len() {
        match nodes[i].parent {
            None => {},
            Some(p) => {
                lemma_chain_stable(nodes, p as int, (f1 - 1) as nat, (f2 - 1) as nat);
            },
        }
    }
}

/// The slots visited walking the parent chain up from `i`, the start included.
pub open spec fn chain_seq(nodes: Seq<FlatNode>, i: int, fuel: nat) -> Seq<int>
    decreases fuel,
{
    if !(0 <= i < nodes.len()) {
        seq![]
    } else {
        match nodes[i].parent {
            None => seq![i],
            Some(p) => {
                if fuel == 0 {
                    seq![]
                } else {
                    seq![i] + chain_seq(nodes, p as int, (fuel - 1) as nat)
                }
            },
        }
    }
}

/// Along a terminating chain, the `j`-th visited slot is in range and has a
/// chain exactly `j` steps shorter.
pub proof fn lemma_chain_seq_props(nodes: Seq<FlatNode>, i: int, fuel: nat)
    requires
        chain_len(nodes, i, fuel) is Some,
    ensures
        ({
            let k = chain_len(nodes, i, fuel)->Some_0;
            let s = chain_seq(nodes, i, fuel);
            &&& s.len() == k + 1
            &&& s[0] == i
            &&& forall|j: int| 0 <= j <= k ==> 0 <= #[trigger] s[j] < nodes.len()
                && chain_len(nodes, s[j], (fuel - j) as nat) == Some((k - j) as nat)
        }),
    decreases fuel,
{
    match nodes[i].parent {
        None => {},
        Some(p) => {
            lemma_chain_seq_props(nodes, p as int, (fuel - 1) as nat);
        },
    }
}

/// A terminating chain visits pairwise distinct slots, so its length is less
/// than the number of slots.
pub proof fn lemma_chain_bound(nodes: Seq<FlatNode>, i: int, fuel: nat)
    requires
        chain_len(nodes, i, fuel) is Some,
    ensures
        chain_len(nodes, i, fuel)->Some_0 < nodes.len(),
{
    let k = chain_len(nodes, i, fuel)->Some_0;
    let s = chain_seq(nodes, i, fuel);
    lemma_chain_seq_props(nodes, i, fuel);
    lemma_chain_le_fuel(nodes, i, fuel);
    assert forall|a: int, b: int| 0 <= a < b <= k implies s[a] != s[b] by {
        if s[a] == s[b] {
            lemma_chain_stable(nodes, s[a], (fuel - a) as nat, fuel);
            lemma_chain_stable(nodes, s[b], (fuel - b) as nat, fuel);
        }
    };
    assert(s.no_duplicates());
    s.unique_seq_to_set();
    let range = vstd::set_lib::set_int_range(0, nodes.len() as int);
    vstd::set_lib::lemma_int_range(0, nodes.len() as int);
    assert(s.to_set().subset_of(range)) by {
        assert forall|x: int| s.to_set().contains(x) implies range.contains(x) by {
            let j = choose|j: int| 0 <= j < s.len() && s[j] == x;
            assert(0 <= s[j] < nodes.len());
        }
    };
    vstd::set_lib::lemma_len_subset(s.to_set(), range);
}

/// In a well-formed arena a non-root chain is one step longer than its
/// parent's chain.
pub proof fn lemma_chain_dist_step(nodes: Seq<FlatNode>, i: int)
    requires
        acyclic(nodes),
        0 <= i < nodes.len(),
        nodes[i].parent is Some,
        nodes[i].parent->Some_0 < nodes.len(),
    ensures
        chain_dist(nodes, i) >= 1,
        chain_dist(nodes, nodes[i].parent->Some_0 as int) == chain_dist(nodes, i) - 1,
        chain_dist(nodes, i) <= nodes.len(),
{
    let n = nodes.len() as nat;
    let p = nodes[i].parent->Some_0 as int;
    assert(chain_len(nodes, i, n) is Some);
    lemma_chain_le_fuel(nodes, i, n);
    let k = chain_len(nodes, i, n)->Some_0;
    assert(chain_len(nodes, p, (n - 1) as nat) == Some((k - 1) as nat));
    lemma_chain_stable(nodes, p, (n - 1) as nat, n);
}

/// A rank assignment that strictly decreases from every slot to its parent.
pub open spec fn decreasing_rank(nodes: Seq<FlatNode>, phi: spec_fn(int) -> nat) -> bool {
    forall|i: int| 0 <= i < nodes.len() && nodes[i].parent is Some
        ==> #[trigger] phi(nodes[i].parent->Some_0 as int) < phi(i)
}

/// Parent indices all land inside the arena.
pub open spec fn parents_in_range(nodes: Seq<FlatNode>) -> bool {
    forall|i: int| 0 <= i < nodes.len() && #[trigger] nodes[i].parent is Some
        ==> nodes[i].parent->Some_0 < nodes.len()
}

proof fn lemma_rank_terminates(nodes: Seq<FlatNode>, phi: spec_fn(int) -> nat, i: int)
    requires
        parents_in_range(nodes),
        decreasing_rank(nodes, phi),
        0 <= i < nodes.len(),
    ensures
        chain_len(nodes, i, (phi(i) + 1) as nat) is Some,
    decreases phi(i),
{
    match nodes[i].parent {
        None => {},
        Some(p) => {
            lemma_rank_terminates(nodes, phi, p as int);
            lemma_chain_le_fuel(nodes, p as int, (phi(p as int) + 1) as nat);
            lemma_chain_stable(nodes, p as int, (phi(p as int) + 1) as nat, phi(i) as nat);
        },
    }
}

/// Exhibiting any strictly decreasing rank proves the arena acyclic.
pub proof fn lemma_acyclic_from_rank(nodes: Seq<FlatNode>, phi: spec_fn(int) -> nat)
    requires
        parents_in_range(nodes),
        decreasing_rank(nodes, phi),
    ensures
        acyclic(nodes),
{
    assert forall|i: int| 0 <= i < nodes.len() implies #[trigger] chain_len(
        nodes,
        i,
        nodes.len() as nat,
    ) is Some by {
        lemma_rank_terminates(nodes, phi, i);
        let f = (phi(i) + 1) as nat;
        lemma_chain_bound(nodes, i, f);
        lemma_chain_stable(nodes, i, f, nodes.len() as nat);
    };
}

/// Whether `a` lies strictly above `d` on `d`'s parent chain, looking at most
/// `fuel` steps up.  A parent reference that leaves the arena ends the walk:
/// out-of-range indices are nobody's ancestor.
pub open spec fn anc_upto(nodes: Seq<FlatNode>, a: int, d: int, fuel: nat) -> bool
    decreases fuel,
{
    if !(0 <= d < nodes.len()) {
        false
    } else {
        match nodes[d].parent {
            None => false,
            Some(p) => {
                if fuel == 0 || p >= nodes.len() {
                    false
                } else {
                    p == a || anc_upto(nodes, a, p as int, (fuel - 1) as nat)
                }
            },
        }
    }
}

/// `a` is a proper ancestor of `d`: walking parents from `d` meets `a`.
pub open spec fn is_ancestor_of(nodes: Seq<FlatNode>, a: int, d: int) -> bool {
    anc_upto(nodes, a, d, nodes.len() as nat)
}

/// Ancestry needs no more fuel than the chain's own length.
pub proof fn lemma_anc_stable(nodes: Seq<FlatNode>, a: int, d: int, f1: nat, f2: nat)
    requires
        chain_len(nodes, d, f1) is Some,
        f2 >= chain_len(nodes, d, f1)->Some_0,
        f1 >= chain_len(nodes, d, f1)->Some_0,
    ensures
        anc_upto(nodes, a, d, f1) == anc_upto(nodes, a, d, f2),
    decreases f1,
{
    if 0 <= d < nodes.len() {
        match nodes[d].parent {
            None => {},
            Some(p) => {
                lemma_chain_le_fuel(nodes, p as int, (f1 - 1) as nat);
                lemma_anc_stable(nodes, a, p as int, (f1 - 1) as nat, (f2 - 1) as nat);
            },
        }
    }
}

/// An ancestor sits in range, strictly closer to the chain's end.
pub proof fn lemma_anc_dist(nodes: Seq<FlatNode>, a: int, d: int, fuel: nat)
    requires
        chain_len(nodes, d, fuel) is Some,
        anc_upto(nodes, a, d, fuel),
    ensures
        0 <= a < nodes.len(),
        chain_len(nodes, a, fuel) is Some,
        chain_len(nodes, a, fuel)->Some_0 < chain_len(nodes, d, fuel)->Some_0,
    decreases fuel,
{
    let p = nodes[d].parent->Some_0 as int;
    let k = chain_len(nodes, d, fuel)->Some_0;
    assert(chain_len(nodes, p, (fuel - 1) as nat) == Some((k - 1) as nat));
    if p == a {
        lemma_chain_le_fuel(nodes, p, (fuel - 1) as nat);
        lemma_chain_stable(nodes, p, (fuel - 1) as nat, fuel);
    } else {
        lemma_anc_dist(nodes, a, p, (fuel - 1) as nat);
        lemma_chain_le_fuel(nodes, a, (fuel - 1) as nat);
        lemma_chain_stable(nodes, a, (fuel - 1) as nat, fuel);
        lemma_chain_le_fuel(nodes, p, (fuel - 1) as nat);
        lemma_chain_stable(nodes, p, (fuel - 1) as nat, fuel);
    }
}

/// In an acyclic arena no slot is its own ancestor, and ancestry is
/// antisymmetric.
pub proof fn lemma_anc_antisym(nodes: Seq<FlatNode>, a: int, d: int)
    requires
        acyclic(nodes),
        0 <= d < nodes.len(),
    ensures
        !(is_ancestor_of(nodes, a, d) && is_ancestor_of(nodes, d, a)),
        !is_ancestor_of(nodes, d, d),
{
    let n = nodes.len() as nat;
    if is_ancestor_of(nodes, a, d) {
        lemma_anc_dist(nodes, a, d, n);
        if is_ancestor_of(nodes, d, a) {
            lemma_anc_dist(nodes, d, a, n);
        }
    }
    if is_ancestor_of(nodes, d, d) {
        lemma_anc_dist(nodes, d, d, n);
    }
}

/// One step of ancestry: a node's parent is its ancestor, and any ancestor of
/// the parent is an ancestor of the node.
pub proof fn lemma_anc_unfold(nodes: Seq<FlatNode>, a: int, d: int)
    requires
        acyclic(nodes),
        0 <= d < nodes.len(),
        nodes[d].parent is Some,
        nodes[d].parent->Some_0 < nodes.len(),
    ensures
        is_ancestor_of(nodes, a, d) <==> (nodes[d].parent->Some_0 as int == a || is_ancestor_of(
            nodes,
            a,
            nodes[d].parent->Some_0 as int,
        )),
{
    let n = nodes.len() as nat;
    let p = nodes[d].parent->Some_0 as int;
    lemma_chain_bound(nodes, p, n);
    lemma_anc_stable(nodes, a, p, n, (n - 1) as nat);
}

/// A slot's in-range parent is one of its ancestors.
pub proof fn lemma_anc_step(nodes: Seq<FlatNode>, x: int)
    requires
        0 <= x < nodes.len(),
        nodes[x].parent is Some,
        nodes[x].parent->Some_0 < nodes.len(),
    ensures
        is_ancestor_of(nodes, nodes[x].parent->Some_0 as int, x),
{
}

/// Ancestry is transitive.
pub proof fn lemma_anc_trans(nodes: Seq<FlatNode>, a: int, b: int, c: int)
    requires
        acyclic(nodes),
        parents_in_range(nodes),
        0 <= c < nodes.len(),
        is_ancestor_of(nodes, a, b),
        is_ancestor_of(nodes, b, c),
    ensures
        is_ancestor_of(nodes, a, c),
    decreases chain_dist(nodes, c),
{
    let p = nodes[c].parent->Some_0 as int;
    lemma_anc_unfold(nodes, b, c);
    lemma_anc_unfold(nodes, a, c);
    if p == b {
    } else {
        lemma_chain_dist_step(nodes, c);
        lemma_anc_trans(nodes, a, b, p);
    }
}

impl FlatTree {
    /// Whether `potential_ancestor_idx` is a proper ancestor of `node_idx`:
    /// walking parents up from `node_idx` meets it.  A slot is never its own
    /// ancestor, and out-of-range indices are nobody's ancestor.  The walk
    /// takes at most as many steps as the arena has slots, so a malformed
    /// parent cycle terminates and reads as "no": no well-formedness is
    /// assumed.
    pub fn is_ancestor(&self, potential_ancestor_idx: usize, node_idx: usize) -> (r: bool)
        ensures
            r == (potential_ancestor_idx != node_idx && is_ancestor_of(
                self.nodes@,
                potential_ancestor_idx as int,
                node_idx as int,
            )),
    {
        let ghost ns = self.nodes@;
        let n = self.nodes.len();
        if node_idx >= n {
            return false;
        }
        if potential_ancestor_idx == node_idx {
            return false;
        }
        let mut cur = node_idx;
        let mut fuel = n;
        loop
            invariant
                ns == self.nodes@,
                n == ns.len(),
                cur < n,
                fuel <= n,
                potential_ancestor_idx != node_idx,
                is_ancestor_of(ns, potential_ancestor_idx as int, node_idx as int) == anc_upto(
                    ns,
                    potential_ancestor_idx as int,
                    cur as int,
                    fuel as nat,
                ),
            decreases fuel,
        {
            match self.nodes[cur].parent {
                None => {
                    proof {
                        assert(!anc_upto(ns, potential_ancestor_idx as int, cur as int,
                            fuel as nat));
                    }
                    return false;
                },
                Some(p) => {
                    if fuel == 0 {
                        proof {
                            assert(!anc_upto(ns, potential_ancestor_idx as int, cur as int,
                                fuel as nat));
                        }
                        return false;
                    }
                    if p >= n {
                        proof {
                            assert(!anc_upto(ns, potential_ancestor_idx as int, cur as int,
                                fuel as nat));
                        }
                        return false;
                    }
                    if p == potential_ancestor_idx {
                        proof {
                            assert(anc_upto(ns, potential_ancestor_idx as int, cur as int,
                                fuel as nat));
                        }
                        return true;
                    }
                    proof {
                        assert(anc_upto(ns, potential_ancestor_idx as int, cur as int, fuel as nat)
                            == anc_upto(ns, potential_ancestor_idx as int, p as int, (fuel
                            - 1) as nat));
                    }
                    cur = p;
                    fuel = fuel - 1;
                },
            }
        }
    }
}

/// Loop measure for a walk up a parent chain.
pub open spec fn cur_measure(nodes: Seq<FlatNode>, cur: Option<usize>) -> nat {
    match cur {
        Some(c) => chain_dist(nodes, c as int) + 1,
        None => 0,
    }
}

/// The sum of the branch lengths on the parent chain from `x` up to (and
/// excluding) the chain's parentless end — the time from the root down to
/// `x` when the chain ends at the root — or `None` when the chain does not
/// end within `fuel` steps.
pub open spec fn path_depth(nodes: Seq<FlatNode>, x: int, fuel: nat) -> Option<int>
    decreases fuel,
{
    if !(0 <= x < nodes.len()) {
        None
    } else {
        match nodes[x].parent {
            None => Some(0),
            Some(p) => {
                if fuel == 0 {
                    None
                } else {
                    match path_depth(nodes, p as int, (fuel - 1) as nat) {
                        Some(k) => Some(k + nodes[x].length),
                        None => None,
                    }
                }
            },
        }
    }
}

/// The time from the chain's end down to `x`, on a well-formed arena.
pub open spec fn pdepth(nodes: Seq<FlatNode>, x: int) -> int {
    path_depth(nodes, x, nodes.len() as nat)->Some_0
}

/// A defined path depth is a sum of branch lengths, never negative.
pub proof fn lemma_path_nonneg(nodes: Seq<FlatNode>, x: int, fuel: nat)
    requires
        path_depth(nodes, x, fuel) is Some,
    ensures
        path_depth(nodes, x, fuel)->Some_0 >= 0,
    decreases fuel,
{
    if 0 <= x < nodes.len() {
        match nodes[x].parent {
            None => {},
            Some(p) => {
                lemma_path_nonneg(nodes, p as int, (fuel - 1) as nat);
            },
        }
    }
}

/// The parentless slot that the parent chain from `x` ends at, or `None`
/// when it does not end within `fuel` steps.
pub open spec fn chain_top(nodes: Seq<FlatNode>, x: int, fuel: nat) -> Option<int>
    decreases fuel,
{
    if !(0 <= x < nodes.len()) {
        None
    } else {
        match nodes[x].parent {
            None => Some(x),
            Some(p) => {
                if fuel == 0 {
                    None
                } else {
                    chain_top(nodes, p as int, (fuel - 1) as nat)
                }
            },
        }
    }
}

/// Every slot carries a depth, and no slot sits above its parent: the
/// arena's depths can feed length recomputation.
pub open spec fn depths_present_monotone(nodes: Seq<FlatNode>) -> bool {
    forall|i: int|
        0 <= i < nodes.len() ==> (#[trigger] nodes[i]).depth is Some && (nodes[i].parent matches
        Some(p) ==> nodes[p as int].depth->Some_0 <= nodes[i].depth->Some_0)
}

/// A slot is live when its parent chain ends at the root.
pub open spec fn live(t: FlatTree, x: int) -> bool {
    chain_top(t.nodes@, x, t.nodes@.len() as nat) == Some(t.root as int)
}

/// On an acyclic arena, path depth and chain top are defined everywhere and
/// one parent step relates them.
pub proof fn lemma_path_step(nodes: Seq<FlatNode>, x: int)
    requires
        acyclic(nodes),
        parents_in_range(nodes),
        0 <= x < nodes.len(),
        nodes[x].parent is Some,
    ensures
        path_depth(nodes, x, nodes.len() as nat) is Some,
        path_depth(nodes, nodes[x].parent->Some_0 as int, nodes.len() as nat) is Some,
        pdepth(nodes, x) == pdepth(nodes, nodes[x].parent->Some_0 as int) + nodes[x].length,
        chain_top(nodes, x, nodes.len() as nat) is Some,
        chain_top(nodes, x, nodes.len() as nat) == chain_top(
            nodes,
            nodes[x].parent->Some_0 as int,
            nodes.len() as nat,
        ),
{
    let n = nodes.len() as nat;
    let p = nodes[x].parent->Some_0 as int;
    lemma_chain_defined_all(nodes, x, n);
    lemma_chain_dist_step(nodes, x);
    let k = chain_len(nodes, p, n)->Some_0;
    lemma_path_defined(nodes, x, n);
    lemma_path_defined(nodes, p, (n - 1) as nat);
    lemma_path_stable(nodes, p, (n - 1) as nat, n);
    lemma_top_defined(nodes, p, (n - 1) as nat);
    lemma_top_stable(nodes, p, (n - 1) as nat, n);
}

/// Where the parent chain ends, path depth and chain top are defined.
pub proof fn lemma_chain_defined_all(nodes: Seq<FlatNode>, x: int, fuel: nat)
    requires
        acyclic(nodes),
        0 <= x < nodes.len(),
        fuel == nodes.len(),
    ensures
        chain_len(nodes, x, fuel) is Some,
        nodes[x].parent is Some ==> chain_len(
            nodes,
            nodes[x].parent->Some_0 as int,
            (fuel - 1) as nat,
        ) is Some,
{
}

/// Path depth is defined wherever the chain ends within the fuel.
pub proof fn lemma_path_defined(nodes: Seq<FlatNode>, x: int, fuel: nat)
    requires
        chain_len(nodes, x, fuel) is Some,
    ensures
        path_depth(nodes, x, fuel) is Some,
    decreases fuel,
{
    if 0 <= x < nodes.len() {
        match nodes[x].parent {
            None => {},
            Some(p) => {
                lemma_path_defined(nodes, p as int, (fuel - 1) as nat);
            },
        }
    }
}

/// The chain top is defined wherever the chain ends within the fuel.
pub proof fn lemma_top_defined(nodes: Seq<FlatNode>, x: int, fuel: nat)
    requires
        chain_len(nodes, x, fuel) is Some,
    ensures
        chain_top(nodes, x, fuel) is Some,
        0 <= chain_top(nodes, x, fuel)->Some_0 < nodes.len(),
        nodes[chain_top(nodes, x, fuel)->Some_0].parent is None,
    decreases fuel,
{
    if 0 <= x < nodes.len() {
        match nodes[x].parent {
            None => {},
            Some(p) => {
                lemma_top_defined(nodes, p as int, (fuel - 1) as nat);
            },
        }
    }
}

/// Once defined, path depth does not change with more fuel.
pub proof fn lemma_path_stable(nodes: Seq<FlatNode>, x: int, f1: nat, f2: nat)
    requires
        chain_len(nodes, x, f1) is Some,
        f2 >= chain_len(nodes, x, f1)->Some_0,
        f1 >= chain_len(nodes, x, f1)->Some_0,
    ensures
        path_depth(nodes, x, f2) == path_depth(nodes, x, f1),
    decreases f1,
{
    if 0 <= x < nodes.len() {
        match nodes[x].parent {
            None => {},
            Some(p) => {
                lemma_chain_le_fuel(nodes, p as int, (f1 - 1) as nat);
                lemma_path_stable(nodes, p as int, (f1 - 1) as nat, (f2 - 1) as nat);
            },
        }
    }
}

/// Chains, tops and path depths only read parent links and lengths, so they
/// agree between arenas that differ elsewhere.
pub proof fn lemma_chain_same_links(a: Seq<FlatNode>, b: Seq<FlatNode>, x: int, fuel: nat)
    requires
        a.len() == b.len(),
        forall|j: int| 0 <= j < a.len() ==> (#[trigger] a[j]).parent == b[j].parent && a[j].length
            == b[j].length,
    ensures
        chain_len(a, x, fuel) == chain_len(b, x, fuel),
        chain_top(a, x, fuel) == chain_top(b, x, fuel),
        path_depth(a, x, fuel) == path_depth(b, x, fuel),
    decreases fuel,
{
    if 0 <= x < a.len() {
        match a[x].parent {
            None => {},
            Some(p) => {
                if fuel > 0 {
                    lemma_chain_same_links(a, b, p as int, (fuel - 1) as nat);
                }
            },
        }
    }
}

/// Ancestry only reads parent links.
pub proof fn lemma_anc_same_links(a: Seq<FlatNode>, b: Seq<FlatNode>, y: int, x: int, fuel: nat)
    requires
        a.len() == b.len(),
        forall|j: int| 0 <= j < a.len() ==> (#[trigger] a[j]).parent == b[j].parent && a[j].length
            == b[j].length,
    ensures
        anc_upto(a, y, x, fuel) == anc_upto(b, y, x, fuel),
    decreases fuel,
{
    if 0 <= x < a.len() {
        match a[x].parent {
            None => {},
            Some(p) => {
                if fuel > 0 {
                    lemma_anc_same_links(a, b, y, p as int, (fuel - 1) as nat);
                }
            },
        }
    }
}

/// `x` lies in the subtree rooted at `i`.
pub open spec fn subtree_of(nodes: Seq<FlatNode>, i: int, x: int) -> bool {
    x == i || is_ancestor_of(nodes, i, x)
}

/// A strict descendant of `i` lies in the subtree of one of `i`'s children.
pub proof fn lemma_subtree_decompose(nodes: Seq<FlatNode>, i: int, x: int)
    requires
        acyclic(nodes),
        forall|j: int| 0 <= j < nodes.len() ==> #[trigger] links_ok_at(nodes, j),
        0 <= x < nodes.len(),
        is_ancestor_of(nodes, i, x),
    ensures
        exists|c: int|
            0 <= c < nodes.len() && (nodes[i].left_child == Some(c as usize)
                || nodes[i].right_child == Some(c as usize)) && #[trigger] subtree_of(nodes, c, x),
    decreases chain_dist(nodes, x),
{
    assert(links_ok_at(nodes, x));
    let px = nodes[x].parent->Some_0 as int;
    lemma_anc_unfold(nodes, i, x);
    if px == i {
        assert(links_ok_at(nodes, px));
        assert(subtree_of(nodes, x, x));
        assert(nodes[i].left_child == Some(x as usize) || nodes[i].right_child == Some(
            x as usize,
        ));
    } else {
        lemma_chain_dist_step(nodes, x);
        lemma_subtree_decompose(nodes, i, px);
        let c = choose|c: int|
            0 <= c < nodes.len() && (nodes[i].left_child == Some(c as usize)
                || nodes[i].right_child == Some(c as usize)) && #[trigger] subtree_of(nodes, c, px);
        if c == px {
            lemma_anc_step(nodes, x);
        } else {
            lemma_anc_unfold(nodes, c, x);
        }
        assert(subtree_of(nodes, c, x));
    }
}

/// A child's subtree sits inside its parent's.
pub proof fn lemma_subtree_embed(nodes: Seq<FlatNode>, i: int, c: int, x: int)
    requires
        acyclic(nodes),
        parents_in_range(nodes),
        nodes.len() <= usize::MAX,
        0 <= i < nodes.len(),
        0 <= c < nodes.len(),
        0 <= x < nodes.len(),
        nodes[c].parent == Some(i as usize),
        subtree_of(nodes, c, x),
    ensures
        is_ancestor_of(nodes, i, x),
{
    lemma_anc_step(nodes, c);
    if x == c {
    } else {
        lemma_anc_trans(nodes, i, c, x);
    }
}

/// The chain top of any subtree member is the chain top of the subtree's
/// root; in particular a parentless slot is the top of its own subtree.
pub proof fn lemma_top_of_subtree(nodes: Seq<FlatNode>, i: int, x: int)
    requires
        acyclic(nodes),
        parents_in_range(nodes),
        nodes.len() <= usize::MAX,
        0 <= i < nodes.len(),
        0 <= x < nodes.len(),
        subtree_of(nodes, i, x),
    ensures
        chain_top(nodes, x, nodes.len() as nat) == chain_top(nodes, i, nodes.len() as nat),
    decreases chain_dist(nodes, x),
{
    if x == i {
    } else {
        let px = nodes[x].parent->Some_0 as int;
        lemma_anc_unfold(nodes, i, x);
        lemma_chain_dist_step(nodes, x);
        lemma_path_step(nodes, x);
        if px == i {
        } else {
            lemma_top_of_subtree(nodes, i, px);
        }
    }
}

/// Conversely, a slot whose chain ends at a parentless slot lies in that
/// slot's subtree.
pub proof fn lemma_top_in_subtree(nodes: Seq<FlatNode>, x: int)
    requires
        acyclic(nodes),
        parents_in_range(nodes),
        0 <= x < nodes.len(),
    ensures
        subtree_of(nodes, chain_top(nodes, x, nodes.len() as nat)->Some_0, x),
    decreases chain_dist(nodes, x),
{
    let n = nodes.len() as nat;
    lemma_top_defined(nodes, x, n);
    match nodes[x].parent {
        None => {},
        Some(p) => {
            lemma_chain_dist_step(nodes, x);
            lemma_path_step(nodes, x);
            lemma_top_in_subtree(nodes, p as int);
            let tp = chain_top(nodes, x, n)->Some_0;
            if p as int == tp {
                lemma_anc_step(nodes, x);
            } else {
                lemma_anc_unfold(nodes, tp, x);
            }
        },
    }
}

/// Well-formedness only reads the links, never names, depths or lengths.
pub proof fn lemma_wf_links_unchanged(told: FlatTree, tnew: FlatTree)
    requires
        wf(told),
        tnew.root == told.root,
        tnew.nodes@.len() == told.nodes@.len(),
        forall|x: int| 0 <= x < told.nodes@.len() ==> (#[trigger] tnew.nodes@[x]).parent
            == told.nodes@[x].parent && tnew.nodes@[x].left_child == told.nodes@[x].left_child
            && tnew.nodes@[x].right_child == told.nodes@[x].right_child,
    ensures
        wf(tnew),
{
    let ns = told.nodes@;
    let new = tnew.nodes@;
    assert forall|x: int| 0 <= x < new.len() implies links_ok_at(new, x) by {
        assert(links_ok_at(ns, x));
        if ns[x].left_child is Some {
            assert(links_ok_at(ns, ns[x].left_child->Some_0 as int));
        }
        if ns[x].right_child is Some {
            assert(links_ok_at(ns, ns[x].right_child->Some_0 as int));
        }
        if ns[x].parent is Some {
            assert(links_ok_at(ns, ns[x].parent->Some_0 as int));
        }
    }
    let phi = |j: int| chain_dist(ns, j);
    assert forall|x: int|
        0 <= x < new.len() && new[x].parent is Some implies #[trigger] phi(
        new[x].parent->Some_0 as int,
    ) < phi(x) by {
        assert(links_ok_at(ns, x));
        lemma_chain_dist_step(ns, x);
    }
    assert(parents_in_range(new)) by {
        assert forall|x: int|
            0 <= x < new.len() && #[trigger] new[x].parent is Some implies new[x].parent->Some_0
            < new.len() by {
            assert(links_ok_at(new, x));
        }
    }
    lemma_acyclic_from_rank(new, phi);
}

/// Once defined, the chain top does not change with more fuel.
pub proof fn lemma_top_stable(nodes: Seq<FlatNode>, x: int, f1: nat, f2: nat)
    requires
        chain_len(nodes, x, f1) is Some,
        f2 >= chain_len(nodes, x, f1)->Some_0,
        f1 >= chain_len(nodes, x, f1)->Some_0,
    ensures
        chain_top(nodes, x, f2) == chain_top(nodes, x, f1),
    decreases f1,
{
    if 0 <= x < nodes.len() {
        match nodes[x].parent {
            None => {},
            Some(p) => {
                lemma_chain_le_fuel(nodes, p as int, (f1 - 1) as nat);
                lemma_top_stable(nodes, p as int, (f1 - 1) as nat, (f2 - 1) as nat);
            },
        }
    }
}

} // verus!
