//! Conversion between the recursive and the flat representation: pre-order
//! flattening, rebuilding the recursive tree from an arena, and the proof
//! that rebuilding undoes flattening.

use vstd::prelude::*;

use crate::tree::{
    FlatNode, FlatTree, Node, acyclic, chain_dist, lemma_acyclic_from_rank, lemma_chain_dist_step,
    links_ok_at, node_binary, wf,
};

verus! {

/// Both halves of a well-formed arena, without a chosen root.
pub open spec fn wf_arena(nodes: Seq<FlatNode>) -> bool {
    &&& acyclic(nodes)
    &&& forall|j: int| 0 <= j < nodes.len() ==> #[trigger] links_ok_at(nodes, j)
}

/// The number of nodes of a recursive tree.
pub open spec fn node_count(t: Node) -> nat
    decreases t,
{
    1 + (match t.left_child {
        Some(l) => node_count(*l),
        None => 0,
    }) + (match t.right_child {
        Some(r) => node_count(*r),
        None => 0,
    })
}

/// The pre-order flattening of `t`, whose own record sits at index `base`
/// with the given parent link: the node first, then the left subtree, then
/// the right subtree.
pub open spec fn spec_flatten(t: Node, base: int, parent: Option<usize>) -> Seq<FlatNode>
    decreases t,
{
    let lsize: int = match t.left_child {
        Some(l) => node_count(*l) as int,
        None => 0,
    };
    let head = FlatNode {
        name: t.name,
        left_child: if t.left_child is Some {
            Some((base + 1) as usize)
        } else {
            None
        },
        right_child: if t.right_child is Some {
            Some((base + 1 + lsize) as usize)
        } else {
            None
        },
        parent,
        depth: t.depth,
        length: t.length,
    };
    seq![head] + (match t.left_child {
        Some(l) => spec_flatten(*l, base + 1, Some(base as usize)),
        None => seq![],
    }) + (match t.right_child {
        Some(r) => spec_flatten(*r, base + 1 + lsize, Some(base as usize)),
        None => seq![],
    })
}

/// The recursive tree rebuilt from slot `i` of an arena by following child
/// links, with enough fuel; a missing slot or spent fuel gives a bare leaf.
pub open spec fn spec_to_node(nodes: Seq<FlatNode>, i: int, fuel: nat) -> Node
    decreases fuel,
{
    if !(0 <= i < nodes.len()) || fuel == 0 {
        Node {
            name: vstd::pervasive::arbitrary(),
            left_child: None,
            right_child: None,
            depth: None,
            length: 0,
        }
    } else {
        Node {
            name: nodes[i].name,
            depth: nodes[i].depth,
            length: nodes[i].length,
            left_child: match nodes[i].left_child {
                Some(l) => Some(Box::new(spec_to_node(nodes, l as int, (fuel - 1) as nat))),
                None => None,
            },
            right_child: match nodes[i].right_child {
                Some(r) => Some(Box::new(spec_to_node(nodes, r as int, (fuel - 1) as nat))),
                None => None,
            },
        }
    }
}

/// A tree has at least its own node.
pub proof fn lemma_node_count_pos(t: Node)
    ensures
        node_count(t) >= 1,
{
}

/// A flattened segment is as long as its tree.
pub proof fn lemma_flatten_len(t: Node, base: int, parent: Option<usize>)
    ensures
        spec_flatten(t, base, parent).len() == node_count(t),
    decreases t,
{
    let lsize: int = match t.left_child {
        Some(l) => node_count(*l) as int,
        None => 0,
    };
    match t.left_child {
        Some(l) => {
            lemma_flatten_len(*l, base + 1, Some(base as usize));
        },
        None => {},
    }
    match t.right_child {
        Some(r) => {
            lemma_flatten_len(*r, base + 1 + lsize, Some(base as usize));
        },
        None => {},
    }
}

/// The shape of one flattened segment: as long as the tree, head fields from
/// the tree's own record, every link inside the segment, every non-head
/// parent strictly before its child, and reciprocity within the segment.
#[verifier::rlimit(100)]
pub proof fn lemma_flatten_props(t: Node, base: int, parent: Option<usize>)
    requires
        node_binary(t),
        0 <= base,
        base + node_count(t) <= usize::MAX,
        parent matches Some(pp) ==> pp < base,
    ensures
        ({
            let s = spec_flatten(t, base, parent);
            &&& s.len() == node_count(t)
            &&& s[0].parent == parent
            &&& s[0].name == t.name
            &&& s[0].depth == t.depth
            &&& s[0].length == t.length
            &&& (s[0].left_child is Some <==> t.left_child is Some)
            &&& (s[0].right_child is Some <==> t.right_child is Some)
            &&& forall|k: int| 0 <= k < s.len() ==> #[trigger] seg_ok(s, base, parent, k)
        }),
    decreases t,
{
    let s = spec_flatten(t, base, parent);
    let lsize: int = match t.left_child {
        Some(l) => node_count(*l) as int,
        None => 0,
    };
    match t.left_child {
        Some(l) => {
            lemma_node_count_pos(*l);
            lemma_flatten_props(*l, base + 1, Some(base as usize));
        },
        None => {},
    }
    match t.right_child {
        Some(r) => {
            lemma_node_count_pos(*r);
            lemma_flatten_props(*r, base + 1 + lsize, Some(base as usize));
        },
        None => {},
    }
    let ls = match t.left_child {
        Some(l) => spec_flatten(*l, base + 1, Some(base as usize)),
        None => seq![],
    };
    let rs = match t.right_child {
        Some(r) => spec_flatten(*r, base + 1 + lsize, Some(base as usize)),
        None => seq![],
    };
    assert forall|m: int| 0 <= m < ls.len() implies s[m + 1] == #[trigger] ls[m] by {}
    assert forall|m: int| 0 <= m < rs.len() implies s[m + 1 + lsize] == #[trigger] rs[m] by {}
    assert forall|k: int| 0 <= k < s.len() implies #[trigger] seg_ok(s, base, parent, k) by {
        if k == 0 {
            if t.left_child is Some {
                assert(s[1] == ls[0]);
                assert(seg_ok(ls, base + 1, Some(base as usize), 0));
                assert(s[1 + lsize] == rs[0]);
                assert(seg_ok(rs, base + 1 + lsize, Some(base as usize), 0));
            }
        } else if k < 1 + lsize {
            assert(s[k] == ls[k - 1]);
            assert(seg_ok(ls, base + 1, Some(base as usize), k - 1));
            if ls[k - 1].left_child is Some {
                let l = ls[k - 1].left_child->Some_0 as int;
                assert(s[l - base] == ls[l - base - 1]);
            }
            if ls[k - 1].right_child is Some {
                let r = ls[k - 1].right_child->Some_0 as int;
                assert(s[r - base] == ls[r - base - 1]);
            }
            if k - 1 > 0 {
                let p = ls[k - 1].parent->Some_0 as int;
                assert(s[p - base] == ls[p - base - 1]);
            }
        } else {
            assert(s[k] == rs[k - 1 - lsize]);
            assert(seg_ok(rs, base + 1 + lsize, Some(base as usize), k - 1 - lsize));
            if rs[k - 1 - lsize].left_child is Some {
                let l = rs[k - 1 - lsize].left_child->Some_0 as int;
                assert(s[l - base] == rs[l - base - 1 - lsize]);
            }
            if rs[k - 1 - lsize].right_child is Some {
                let r = rs[k - 1 - lsize].right_child->Some_0 as int;
                assert(s[r - base] == rs[r - base - 1 - lsize]);
            }
            if k - 1 - lsize > 0 {
                let p = rs[k - 1 - lsize].parent->Some_0 as int;
                assert(s[p - base] == rs[p - base - 1 - lsize]);
            }
        }
    }
}

/// The per-slot conditions of a flattened segment `s` placed at offset
/// `base`: links of slot `k` point inside the segment and answer back, the
/// shape is binary, and parents come strictly earlier in the layout.
pub open spec fn seg_ok(s: Seq<FlatNode>, base: int, parent: Option<usize>, k: int) -> bool {
    let n = s[k];
    &&& (n.left_child matches Some(l) ==> base < l < base + s.len() && l as int > base + k
        && s[l - base].parent == Some((base + k) as usize))
    &&& (n.right_child matches Some(r) ==> base < r < base + s.len() && r as int > base + k
        && s[r - base].parent == Some((base + k) as usize))
    &&& (n.left_child is Some <==> n.right_child is Some)
    &&& (n.left_child is Some ==> n.left_child != n.right_child)
    &&& (k > 0 ==> (n.parent matches Some(p) && base <= p < base + k && (s[p - base].left_child
        == Some((base + k) as usize) || s[p - base].right_child == Some((base + k) as usize))))
    &&& (k == 0 ==> n.parent == parent)
}

impl Node {
    /// Flattens the tree into a fresh arena, the root at index zero and
    /// every node placed in pre-order.
    pub fn to_flat_tree(&self) -> (r: FlatTree)
        requires
            node_binary(*self),
            node_count(*self) <= usize::MAX,
        ensures
            r.nodes@ == spec_flatten(*self, 0, None),
            r.root == 0,
            r.nodes@.len() == node_count(*self),
            wf(r),
    {
        let mut flat_nodes: Vec<FlatNode> = Vec::new();
        let root_index = node_to_flat(self, &mut flat_nodes, None);
        let r = FlatTree { nodes: flat_nodes, root: root_index };
        proof {
            let s = r.nodes@;
            lemma_flatten_props(*self, 0, None);
            assert forall|k: int| 0 <= k < s.len() implies links_ok_at(s, k) by {
                assert(seg_ok(s, 0, None, k));
                if s[k].left_child is Some {
                    assert(seg_ok(s, 0, None, s[k].left_child->Some_0 as int));
                }
                if s[k].right_child is Some {
                    assert(seg_ok(s, 0, None, s[k].right_child->Some_0 as int));
                }
                if s[k].parent is Some {
                    assert(seg_ok(s, 0, None, s[k].parent->Some_0 as int));
                }
            }
            let phi = |x: int| x as nat;
            assert forall|x: int|
                0 <= x < s.len() && s[x].parent is Some implies #[trigger] phi(
                s[x].parent->Some_0 as int,
            ) < phi(x) by {
                assert(seg_ok(s, 0, None, x));
            }
            assert(crate::tree::parents_in_range(s)) by {
                assert forall|x: int|
                    0 <= x < s.len() && #[trigger] s[x].parent is Some implies s[x].parent->Some_0
                    < s.len() by {
                    assert(seg_ok(s, 0, None, x));
                }
            }
            lemma_acyclic_from_rank(s, phi);
        }
        r
    }
}

/// Appends the pre-order flattening of `node` to the arena under
/// construction, returning the index of `node`'s own record.
pub fn node_to_flat(node: &Node, flat_tree: &mut Vec<FlatNode>, parent: Option<usize>) -> (idx:
    usize)
    requires
        old(flat_tree)@.len() + node_count(*node) <= usize::MAX,
    ensures
        idx == old(flat_tree)@.len(),
        final(flat_tree)@ == old(flat_tree)@ + spec_flatten(
            *node,
            old(flat_tree)@.len() as int,
            parent,
        ),
    decreases *node,
{
    let index = flat_tree.len();
    let ghost base = index as int;
    flat_tree.push(
        FlatNode {
            name: clone_string(&node.name),
            left_child: None,
            right_child: None,
            parent,
            depth: node.depth,
            length: node.length,
        },
    );
    let ghost lsize: int = if node.left_child is Some {
        node_count(*node.left_child->Some_0) as int
    } else {
        0
    };
    match &node.left_child {
        Some(left_child) => {
            proof {
                assert(node_count(**left_child) < node_count(*node));
                if node.right_child is Some {
                    lemma_node_count_pos(*node.right_child->Some_0);
                }
            }
            let left_index = node_to_flat(left_child, flat_tree, Some(index));
            proof {
                lemma_flatten_len(**left_child, base + 1, Some(index));
            }
            flat_tree[index].left_child = Some(left_index);
        },
        None => {},
    }
    match &node.right_child {
        Some(right_child) => {
            proof {
                assert(node_count(**right_child) < node_count(*node));
            }
            let right_index = node_to_flat(right_child, flat_tree, Some(index));
            proof {
                lemma_flatten_len(**right_child, base + 1 + lsize, Some(index));
            }
            flat_tree[index].right_child = Some(right_index);
        },
        None => {},
    }
    proof {
        assert(flat_tree@ =~= old(flat_tree)@ + spec_flatten(*node, base, parent));
    }
    index
}

/// Copies a node name.  Relies on `String::clone`, which returns its input
/// unchanged.
fn clone_string(s: &String) -> (r: String)
    ensures
        r == *s,
{
    s.clone()
}

/// Rebuilding needs no more fuel than the arena has slots below the start.
pub proof fn lemma_to_node_fuel_stable(nodes: Seq<FlatNode>, i: int, f1: nat, f2: nat)
    requires
        wf_arena(nodes),
        nodes.len() <= usize::MAX,
        0 <= i < nodes.len(),
        f1 >= nodes.len() - chain_dist(nodes, i),
        f2 >= nodes.len() - chain_dist(nodes, i),
    ensures
        spec_to_node(nodes, i, f1) == spec_to_node(nodes, i, f2),
    decreases f1,
{
    assert(links_ok_at(nodes, i));
    crate::tree::lemma_chain_bound(nodes, i, nodes.len() as nat);
    if nodes[i].left_child is Some {
        let l = nodes[i].left_child->Some_0 as int;
        assert(links_ok_at(nodes, l));
        lemma_chain_dist_step(nodes, l);
        lemma_to_node_fuel_stable(nodes, l, (f1 - 1) as nat, (f2 - 1) as nat);
    }
    if nodes[i].right_child is Some {
        let r = nodes[i].right_child->Some_0 as int;
        assert(links_ok_at(nodes, r));
        lemma_chain_dist_step(nodes, r);
        lemma_to_node_fuel_stable(nodes, r, (f1 - 1) as nat, (f2 - 1) as nat);
    }
}

/// An arena whose depths are present and parent-monotone rebuilds into a
/// tree whose depths never decrease from parent to child.
pub proof fn lemma_to_node_monotone(ns: Seq<FlatNode>, i: int, fuel: nat, base: int)
    requires
        wf_arena(ns),
        ns.len() <= usize::MAX,
        0 <= i < ns.len(),
        fuel >= ns.len() - chain_dist(ns, i),
        crate::tree::depths_present_monotone(ns),
        base <= ns[i].depth->Some_0,
    ensures
        crate::metric::depths_monotone_from(spec_to_node(ns, i, fuel), base),
    decreases fuel,
{
    assert(links_ok_at(ns, i));
    crate::tree::lemma_chain_bound(ns, i, ns.len() as nat);
    if ns[i].left_child is Some {
        let l = ns[i].left_child->Some_0 as int;
        assert(links_ok_at(ns, l));
        lemma_chain_dist_step(ns, l);
        lemma_to_node_monotone(ns, l, (fuel - 1) as nat, ns[i].depth->Some_0 as int);
    }
    if ns[i].right_child is Some {
        let r = ns[i].right_child->Some_0 as int;
        assert(links_ok_at(ns, r));
        lemma_chain_dist_step(ns, r);
        lemma_to_node_monotone(ns, r, (fuel - 1) as nat, ns[i].depth->Some_0 as int);
    }
}

/// Rebuilds the recursive tree hanging from slot `index`.
pub fn flat_to_node(flat_tree: &Vec<FlatNode>, index: usize) -> (r: Option<Node>)
    requires
        wf_arena(flat_tree@),
        index < flat_tree@.len(),
    ensures
        r == Some(spec_to_node(flat_tree@, index as int, flat_tree@.len() as nat)),
    decreases flat_tree@.len() - chain_dist(flat_tree@, index as int),
{
    let ghost ns = flat_tree@;
    let len_bound = flat_tree.len();
    proof {
        assert(ns.len() == len_bound);
        assert(links_ok_at(ns, index as int));
        crate::tree::lemma_chain_bound(ns, index as int, ns.len() as nat);
    }
    let fnode = &flat_tree[index];
    let name = clone_string(&fnode.name);
    let depth = fnode.depth;
    let length = fnode.length;
    let lc = fnode.left_child;
    let rc = fnode.right_child;
    let left_child = match lc {
        Some(l) => {
            proof {
                assert(links_ok_at(ns, l as int));
                lemma_chain_dist_step(ns, l as int);
                lemma_to_node_fuel_stable(
                    ns,
                    l as int,
                    ns.len() as nat,
                    (ns.len() - 1) as nat,
                );
            }
            match flat_to_node(flat_tree, l) {
                Some(n) => Some(Box::new(n)),
                None => None,
            }
        },
        None => None,
    };
    let right_child = match rc {
        Some(r) => {
            proof {
                assert(links_ok_at(ns, r as int));
                lemma_chain_dist_step(ns, r as int);
                lemma_to_node_fuel_stable(
                    ns,
                    r as int,
                    ns.len() as nat,
                    (ns.len() - 1) as nat,
                );
            }
            match flat_to_node(flat_tree, r) {
                Some(n) => Some(Box::new(n)),
                None => None,
            }
        },
        None => None,
    };
    Some(Node { name, left_child, right_child, depth, length })
}

impl FlatTree {
    /// Rebuilds the recursive tree hanging from the root.
    pub fn to_node(&self) -> (r: Node)
        requires
            wf(*self),
        ensures
            r == spec_to_node(self.nodes@, self.root as int, self.nodes@.len() as nat),
    {
        let r = flat_to_node(&self.nodes, self.root);
        r.unwrap()
    }
}

/// Rebuilding a flattened segment that sits at `base` inside a larger arena
/// gives back the tree it came from.
proof fn lemma_to_node_of_flatten(
    ns: Seq<FlatNode>,
    t: Node,
    base: int,
    parent: Option<usize>,
    fuel: nat,
)
    requires
        node_binary(t),
        0 <= base,
        base + node_count(t) <= ns.len(),
        ns.len() <= usize::MAX,
        parent matches Some(pp) ==> pp < base,
        ns.subrange(base, base + node_count(t)) == spec_flatten(t, base, parent),
        fuel >= node_count(t),
    ensures
        spec_to_node(ns, base, fuel) == t,
    decreases t,
{
    let s = spec_flatten(t, base, parent);
    lemma_flatten_props(t, base, parent);
    let lsize: int = match t.left_child {
        Some(l) => node_count(*l) as int,
        None => 0,
    };
    assert(ns[base] == s[0]);
    match t.left_child {
        Some(l) => {
            let ls = spec_flatten(*l, base + 1, Some(base as usize));
            lemma_flatten_props(*l, base + 1, Some(base as usize));
            assert(ns.subrange(base + 1, base + 1 + lsize) =~= ls) by {
                assert forall|m: int| 0 <= m < lsize implies ns.subrange(
                    base + 1,
                    base + 1 + lsize,
                )[m] == ls[m] by {
                    assert(ns.subrange(base, base + node_count(t))[m + 1] == s[m + 1]);
                    assert(s[m + 1] == ls[m]);
                }
            }
            lemma_to_node_of_flatten(ns, *l, base + 1, Some(base as usize), (fuel - 1) as nat);
        },
        None => {},
    }
    match t.right_child {
        Some(r) => {
            let rs = spec_flatten(*r, base + 1 + lsize, Some(base as usize));
            lemma_flatten_props(*r, base + 1 + lsize, Some(base as usize));
            assert(ns.subrange(base + 1 + lsize, base + node_count(t)) =~= rs) by {
                assert forall|m: int| 0 <= m < node_count(*r) implies ns.subrange(
                    base + 1 + lsize,
                    base + node_count(t) as int,
                )[m] == rs[m] by {
                    assert(ns.subrange(base, base + node_count(t))[m + 1 + lsize] == s[m + 1
                        + lsize]);
                    assert(s[m + 1 + lsize] == rs[m]);
                }
            }
            lemma_to_node_of_flatten(
                ns,
                *r,
                base + 1 + lsize,
                Some(base as usize),
                (fuel - 1) as nat,
            );
        },
        None => {},
    }
}

/// Flattening a recursive tree and rebuilding it from the arena's root gives
/// back the same tree, so the flat form loses nothing.
pub proof fn lemma_flat_recursive_round_trip(t: Node)
    requires
        node_binary(t),
        node_count(t) <= usize::MAX,
    ensures
        spec_to_node(spec_flatten(t, 0, None), 0, spec_flatten(t, 0, None).len() as nat) == t,
{
    let s = spec_flatten(t, 0, None);
    lemma_flatten_props(t, 0, None);
    assert(s.subrange(0, node_count(t) as int) =~= s);
    lemma_to_node_of_flatten(s, t, 0, None, s.len() as nat);
}

/// A pre-order-packed arena — one that is the flattening of some binary
/// tree, root in the first slot — rebuilds and re-flattens to itself: on
/// such arenas the two conversions invert each other in both orders.
pub proof fn lemma_recursive_flat_round_trip(ns: Seq<FlatNode>, t: Node)
    requires
        node_binary(t),
        node_count(t) <= usize::MAX,
        ns == spec_flatten(t, 0, None),
    ensures
        spec_flatten(spec_to_node(ns, 0, ns.len() as nat), 0, None) == ns,
{
    lemma_flat_recursive_round_trip(t);
}

} // verus!
