//! Topology surgery on flat trees: leaf pruning and subtree
//! prune-and-regraft, with proofs that the arena's well-formedness survives
//! each move.

use vstd::prelude::*;

use crate::tree::{
    FlatNode, FlatTree, acyclic, chain_dist, depths_present_monotone, is_ancestor_of,
    lemma_acyclic_from_rank, lemma_anc_antisym, lemma_anc_step, lemma_anc_trans, lemma_anc_unfold,
    lemma_chain_bound, lemma_chain_dist_step, links_ok, links_ok_at, parents_in_range, wf,
};

verus! {

/// Structured failure of a surgery precondition, carrying the offending
/// arena indices.
#[derive(Clone, Copy, Debug, PartialEq, Eq)]
pub enum SprError {
    /// A name lookup that preceded the move found nothing.
    NodeNotFound(usize),
    /// The donor index is out of range, the root, or detached.
    InvalidDonor(usize),
    /// The recipient index is out of range or the root.
    InvalidRecipient(usize),
    /// The pair itself is refused: equal indices, donor parent of recipient,
    /// or a move that would create a cycle.
    InvalidMove(usize, usize),
    /// Parent/child reciprocity was found broken.
    TreeError(usize),
}

/// The other child of `p`, given that `c` is one of `p`'s children.
pub open spec fn sib_under(nodes: Seq<FlatNode>, p: int, c: int) -> int {
    if nodes[p].left_child == Some(c as usize) {
        nodes[p].right_child->Some_0 as int
    } else {
        nodes[p].left_child->Some_0 as int
    }
}

/// Replaces the value `from` by `to` in a child slot, leaving other values
/// alone.
pub open spec fn child_update(c: Option<usize>, from: usize, to: usize) -> Option<usize> {
    if c == Some(from) {
        Some(to)
    } else {
        c
    }
}

/// The arena after the leaf at `i` is pruned: `i` is detached, its parent
/// `p` is cleared to an unreachable slot, and the sibling `s` takes `p`'s
/// place under the grandparent `g`.
pub open spec fn remove_result_nodes(nodes: Seq<FlatNode>, i: int) -> Seq<FlatNode> {
    let p = nodes[i].parent->Some_0 as int;
    let s = sib_under(nodes, p, i);
    let g = nodes[p].parent;
    Seq::new(
        nodes.len(),
        |x: int|
            FlatNode {
                name: nodes[x].name,
                depth: nodes[x].depth,
                length: nodes[x].length,
                parent: if x == i || x == p {
                    None
                } else if x == s {
                    g
                } else {
                    nodes[x].parent
                },
                left_child: if x == p {
                    None
                } else if g matches Some(gi) && x == gi {
                    child_update(nodes[x].left_child, p as usize, s as usize)
                } else {
                    nodes[x].left_child
                },
                right_child: if x == p {
                    None
                } else if g matches Some(gi) && x == gi {
                    child_update(nodes[x].right_child, p as usize, s as usize)
                } else {
                    nodes[x].right_child
                },
            },
    )
}

/// The root after the leaf at `i` is pruned: the sibling when the pruned
/// leaf's parent was the root, the old root otherwise.
pub open spec fn remove_result_root_at(nodes: Seq<FlatNode>, root: int, i: int) -> int {
    let p = nodes[i].parent->Some_0 as int;
    if nodes[p].parent is None {
        sib_under(nodes, p, i)
    } else {
        root
    }
}

/// The same, over a tree value.
pub open spec fn remove_result_root(t: FlatTree, i: int) -> int {
    remove_result_root_at(t.nodes@, t.root as int, i)
}

/// The precondition of leaf pruning: `i` is an attached leaf, and if its
/// parent is parentless that parent is the root.
pub open spec fn can_remove_at(nodes: Seq<FlatNode>, root: int, i: int) -> bool {
    &&& 0 <= i < nodes.len()
    &&& nodes[i].left_child is None
    &&& nodes[i].right_child is None
    &&& nodes[i].parent is Some
    &&& (nodes[nodes[i].parent->Some_0 as int].parent is None ==> nodes[i].parent->Some_0 == root)
}

/// The same, over a tree value.
pub open spec fn can_remove(t: FlatTree, i: int) -> bool {
    can_remove_at(t.nodes@, t.root as int, i)
}

/// Pruning a leaf keeps the arena's depths present and monotone: the
/// promoted sibling's new parent is its old grandparent, which sits no
/// deeper than its old parent.
pub proof fn lemma_remove_keeps_monotone(ns: Seq<FlatNode>, root: int, i: int)
    requires
        acyclic(ns),
        forall|j: int| 0 <= j < ns.len() ==> #[trigger] links_ok_at(ns, j),
        ns.len() <= usize::MAX,
        can_remove_at(ns, root, i),
        depths_present_monotone(ns),
    ensures
        depths_present_monotone(remove_result_nodes(ns, i)),
{
    let new = remove_result_nodes(ns, i);
    let p = ns[i].parent->Some_0 as int;
    let s = sib_under(ns, p, i);
    assert(links_ok_at(ns, i));
    assert(links_ok_at(ns, p));
    assert(links_ok_at(ns, s));
    assert forall|x: int|
        0 <= x < new.len() implies (#[trigger] new[x]).depth is Some && (new[x].parent matches Some(
        q,
    ) ==> new[q as int].depth->Some_0 <= new[x].depth->Some_0) by {
        assert(links_ok_at(ns, x));
        if new[x].parent is Some {
            let q = new[x].parent->Some_0 as int;
            assert(links_ok_at(ns, q));
            if x == s && ns[p].parent is Some {
                // two old steps: grandparent under parent, parent under
                // sibling
                assert(ns[q].depth->Some_0 <= ns[p].depth->Some_0);
                assert(ns[p].depth->Some_0 <= ns[s].depth->Some_0);
            }
        }
    }
}

/// Prunes the leaf at `index`: its parent is spliced out of the tree and the
/// sibling takes the parent's place (under the grandparent, or as the new
/// root).  Depths are untouched; lengths are left for the caller to
/// recompute from depths.
pub fn remove_node(flat_tree: &mut FlatTree, index: usize)
    requires
        wf(*old(flat_tree)),
        can_remove(*old(flat_tree), index as int),
    ensures
        wf(*final(flat_tree)),
        final(flat_tree).nodes@ == remove_result_nodes(old(flat_tree).nodes@, index as int),
        final(flat_tree).root as int == remove_result_root(*old(flat_tree), index as int),
{
    let ghost ns = flat_tree.nodes@;
    let ghost n = ns.len() as int;
    let len_bound = flat_tree.nodes.len();
    proof {
        assert(ns.len() == len_bound);
        assert(links_ok_at(ns, index as int));
    }
    let parent_index = flat_tree.nodes[index].parent.unwrap();
    proof {
        assert(links_ok_at(ns, parent_index as int));
    }
    let pl = flat_tree.nodes[parent_index].left_child.unwrap();
    let pr = flat_tree.nodes[parent_index].right_child.unwrap();
    let sister_index = if pl == index {
        pr
    } else {
        pl
    };
    let grandparent = flat_tree.nodes[parent_index].parent;
    let ghost p = parent_index as int;
    let ghost s = sister_index as int;
    proof {
        assert(links_ok_at(ns, s));
        lemma_chain_dist_step(ns, index as int);
        lemma_chain_dist_step(ns, s);
        if ns[p].parent is Some {
            assert(links_ok_at(ns, ns[p].parent->Some_0 as int));
            lemma_chain_dist_step(ns, p);
        }
        assert(s != index && s != p && index as int != p);
        assert(grandparent matches Some(g) ==> g as int != p && g as int != s && g != index);
    }
    flat_tree.nodes[index].parent = None;
    flat_tree.nodes[parent_index].parent = None;
    flat_tree.nodes[parent_index].left_child = None;
    flat_tree.nodes[parent_index].right_child = None;
    flat_tree.nodes[sister_index].parent = grandparent;
    match grandparent {
        Some(g) => {
            let gl = flat_tree.nodes[g].left_child;
            if gl.is_some() && gl.unwrap() == parent_index {
                flat_tree.nodes[g].left_child = Some(sister_index);
            } else {
                flat_tree.nodes[g].right_child = Some(sister_index);
            }
        },
        None => {
            flat_tree.root = sister_index;
        },
    }
    proof {
        let new = flat_tree.nodes@;
        let target = remove_result_nodes(ns, index as int);
        assert forall|x: int| 0 <= x < n implies new[x] == target[x] by {
            assert(links_ok_at(ns, x));
        }
        assert(new =~= target);
        lemma_remove_preserves_wf(ns, *old(flat_tree), *flat_tree, index as int);
    }
}

proof fn lemma_remove_preserves_wf(ns: Seq<FlatNode>, told: FlatTree, tnew: FlatTree, i: int)
    requires
        ns == told.nodes@,
        ns.len() <= usize::MAX,
        wf(told),
        can_remove(told, i),
        tnew.nodes@ == remove_result_nodes(ns, i),
        tnew.root as int == remove_result_root(told, i),
    ensures
        wf(tnew),
{
    let new = tnew.nodes@;
    let p = ns[i].parent->Some_0 as int;
    let s = sib_under(ns, p, i);
    let g = ns[p].parent;
    assert(links_ok_at(ns, i));
    assert(links_ok_at(ns, p));
    assert(links_ok_at(ns, s));
    lemma_chain_dist_step(ns, i);
    lemma_chain_dist_step(ns, s);
    assert(i != p && s != i && s != p);
    if ns[p].parent is Some {
        let gi = ns[p].parent->Some_0 as int;
        assert(links_ok_at(ns, gi));
        lemma_chain_dist_step(ns, p);
        assert(gi != p && gi != i && gi != s);
    }
    // Link reciprocity, slot by slot.
    assert forall|x: int| 0 <= x < new.len() implies links_ok_at(new, x) by {
        assert(links_ok_at(ns, x));
        if ns[x].left_child is Some {
            assert(links_ok_at(ns, ns[x].left_child->Some_0 as int));
        }
        if ns[x].right_child is Some {
            assert(links_ok_at(ns, ns[x].right_child->Some_0 as int));
        }
        if ns[x].parent is Some {
            assert(links_ok_at(ns, ns[x].parent->Some_0 as int));
        }
        if new[x].left_child is Some {
            assert(links_ok_at(ns, new[x].left_child->Some_0 as int));
        }
        if new[x].right_child is Some {
            assert(links_ok_at(ns, new[x].right_child->Some_0 as int));
        }
        if new[x].parent is Some {
            assert(links_ok_at(ns, new[x].parent->Some_0 as int));
        }
        if x == p {
            assert(links_ok_at(new, x));
        } else if x == i {
            assert(links_ok_at(new, x));
        } else if x == s {
            assert(links_ok_at(new, x));
        } else if g is Some && x == g->Some_0 {
            assert(links_ok_at(new, x));
        } else {
            assert(new[x].parent == ns[x].parent);
            assert(new[x].left_child == ns[x].left_child);
            assert(new[x].right_child == ns[x].right_child);
            if ns[x].left_child is Some {
                let l = ns[x].left_child->Some_0 as int;
                assert(ns[l].parent == Some(x as usize));
                assert(l != i);
                assert(l != p);
                assert(l != s);
                assert(new[l].parent == Some(x as usize));
            }
            if ns[x].right_child is Some {
                let r = ns[x].right_child->Some_0 as int;
                assert(ns[r].parent == Some(x as usize));
                assert(r != i);
                assert(r != p);
                assert(r != s);
                assert(new[r].parent == Some(x as usize));
            }
            if ns[x].parent is Some {
                let q = ns[x].parent->Some_0 as int;
                assert(q != i);
                assert(q != p);
                assert(new[q].left_child == Some(x as usize) || new[q].right_child == Some(
                    x as usize,
                ));
            }
            assert(links_ok_at(new, x));
        }
    }
    // The root keeps no parent.
    assert(new[tnew.root as int].parent is None);
    // Acyclicity: the old chain distances still decrease parent-ward.
    let phi = |j: int| chain_dist(ns, j);
    assert forall|x: int|
        0 <= x < new.len() && new[x].parent is Some implies #[trigger] phi(
        new[x].parent->Some_0 as int,
    ) < phi(x) by {
        assert(links_ok_at(ns, x));
        if x == s {
            // its new parent is the grandparent, two levels up
        } else {
            lemma_chain_dist_step(ns, x);
        }
    }
    assert(parents_in_range(new)) by {
        assert forall|x: int|
            0 <= x < new.len() && #[trigger] new[x].parent is Some implies new[x].parent->Some_0
            < new.len() by {
            assert(links_ok_at(new, x));
        }
    }
    lemma_acyclic_from_rank(new, phi);
}

/// A child slot of `x` after a prune-and-regraft of `r` beside `d`: the
/// recipient's parent is first replaced by the recipient's sibling under the
/// old grandparent, then the donor is replaced by the recipient's parent
/// under the donor's parent.
pub open spec fn spr_child_slot(
    nodes: Seq<FlatNode>,
    d: int,
    r: int,
    x: int,
    c: Option<usize>,
) -> Option<usize> {
    let pd = nodes[d].parent->Some_0 as int;
    let pr = nodes[r].parent->Some_0 as int;
    let sr = sib_under(nodes, pr, r);
    let ppr = nodes[pr].parent;
    let c1 = if ppr matches Some(gp) && x == gp {
        child_update(c, pr as usize, sr as usize)
    } else {
        c
    };
    if x == pd {
        child_update(c1, d as usize, pr as usize)
    } else {
        c1
    }
}

/// The arena after the dated prune-and-regraft move: the recipient's parent
/// `pr` is lifted out of its edge (the recipient's sibling `sr` takes its
/// place under the old grandparent) and is re-inserted into the edge above
/// the donor, with the donor and the recipient as its children and, when a
/// time is given, its depth set to that time.  When donor and recipient are
/// already siblings only the depth changes.
pub open spec fn spr_result_nodes(
    nodes: Seq<FlatNode>,
    d: int,
    r: int,
    nd: Option<u64>,
) -> Seq<FlatNode> {
    let pd = nodes[d].parent->Some_0 as int;
    let pr = nodes[r].parent->Some_0 as int;
    let sr = sib_under(nodes, pr, r);
    let ppr = nodes[pr].parent;
    if pd == pr {
        Seq::new(
            nodes.len(),
            |x: int|
                FlatNode {
                    name: nodes[x].name,
                    length: nodes[x].length,
                    depth: if x == pr && nd is Some {
                        nd
                    } else {
                        nodes[x].depth
                    },
                    parent: nodes[x].parent,
                    left_child: nodes[x].left_child,
                    right_child: nodes[x].right_child,
                },
        )
    } else {
        Seq::new(
            nodes.len(),
            |x: int|
                FlatNode {
                    name: nodes[x].name,
                    length: nodes[x].length,
                    depth: if x == pr && nd is Some {
                        nd
                    } else {
                        nodes[x].depth
                    },
                    parent: if x == pr {
                        Some(pd as usize)
                    } else if x == sr {
                        ppr
                    } else if x == d {
                        Some(pr as usize)
                    } else {
                        nodes[x].parent
                    },
                    left_child: if x == pr {
                        if nodes[pr].left_child == Some(r as usize) {
                            Some(d as usize)
                        } else {
                            Some(r as usize)
                        }
                    } else {
                        spr_child_slot(nodes, d, r, x, nodes[x].left_child)
                    },
                    right_child: if x == pr {
                        if nodes[pr].left_child == Some(r as usize) {
                            Some(r as usize)
                        } else {
                            Some(d as usize)
                        }
                    } else {
                        spr_child_slot(nodes, d, r, x, nodes[x].right_child)
                    },
                },
        )
    }
}

/// The root after the move, over a bare arena and root: the recipient's
/// sibling when the recipient's parent was the root, the old root otherwise.
pub open spec fn spr_result_root_at(nodes: Seq<FlatNode>, root: int, d: int, r: int) -> int {
    let pd = nodes[d].parent->Some_0 as int;
    let pr = nodes[r].parent->Some_0 as int;
    if pd == pr {
        root
    } else if nodes[pr].parent is None {
        sib_under(nodes, pr, r)
    } else {
        root
    }
}

/// The same result root on a tree value.
pub open spec fn spr_result_root(t: FlatTree, d: int, r: int) -> int {
    spr_result_root_at(t.nodes@, t.root as int, d, r)
}

/// The precondition of the prune-and-regraft move, stated over a bare arena
/// and root: donor and recipient are distinct attached non-root slots, the
/// donor is not the recipient's parent, the recipient is not an ancestor of
/// the donor (that move would close a cycle), and a parentless recipient's
/// parent is the root.
pub open spec fn can_spr_at(nodes: Seq<FlatNode>, root: int, d: int, r: int) -> bool {
    &&& 0 <= d < nodes.len()
    &&& 0 <= r < nodes.len()
    &&& d != r
    &&& nodes[d].parent is Some
    &&& nodes[r].parent is Some
    &&& nodes[r].parent != Some(d as usize)
    &&& !is_ancestor_of(nodes, r, d)
    &&& (nodes[nodes[r].parent->Some_0 as int].parent is None ==> nodes[r].parent->Some_0 as int
        == root)
}

/// The same precondition on a tree value.
pub open spec fn can_spr(t: FlatTree, d: int, r: int) -> bool {
    can_spr_at(t.nodes@, t.root as int, d, r)
}

/// One dated subtree prune-and-regraft, the concrete move both topology
/// operations and the transfer pipeline share.  `new_depth`, when given, is
/// written to the depth of the node that ends up as the donor's parent.
#[verifier::rlimit(60)]
fn spr_apply(flat_tree: &mut FlatTree, donor: usize, recipient: usize, new_depth: Option<u64>)
    requires
        wf(*old(flat_tree)),
        can_spr(*old(flat_tree), donor as int, recipient as int),
    ensures
        wf(*final(flat_tree)),
        final(flat_tree).nodes@ == spr_result_nodes(
            old(flat_tree).nodes@,
            donor as int,
            recipient as int,
            new_depth,
        ),
        final(flat_tree).root as int == spr_result_root(
            *old(flat_tree),
            donor as int,
            recipient as int,
        ),
{
    let ghost ns = flat_tree.nodes@;
    let len_bound = flat_tree.nodes.len();
    proof {
        assert(ns.len() == len_bound);
        assert(links_ok_at(ns, donor as int));
        assert(links_ok_at(ns, recipient as int));
    }
    let donor_parent = flat_tree.nodes[donor].parent.unwrap();
    let recipient_parent = flat_tree.nodes[recipient].parent.unwrap();
    proof {
        assert(links_ok_at(ns, recipient_parent as int));
    }
    if donor_parent == recipient_parent {
        if let Some(t) = new_depth {
            flat_tree.nodes[recipient_parent].depth = Some(t);
        }
        proof {
            let target = spr_result_nodes(ns, donor as int, recipient as int, new_depth);
            assert(flat_tree.nodes@ =~= target);
            crate::tree::lemma_wf_links_unchanged(*old(flat_tree), *flat_tree);
        }
        return ;
    }
    let prl = flat_tree.nodes[recipient_parent].left_child.unwrap();
    let prr = flat_tree.nodes[recipient_parent].right_child.unwrap();
    let recipient_sibling = if prl == recipient {
        prr
    } else {
        prl
    };
    let recipient_grandparent = flat_tree.nodes[recipient_parent].parent;
    let ghost pd = donor_parent as int;
    let ghost pr = recipient_parent as int;
    let ghost sr = recipient_sibling as int;
    proof {
        lemma_spr_distinct(ns, donor as int, recipient as int);
    }
    // Lift the recipient's parent out and point it at the donor's edge.
    flat_tree.nodes[recipient_parent].parent = Some(donor_parent);
    if prl == recipient {
        flat_tree.nodes[recipient_parent].left_child = Some(donor);
        flat_tree.nodes[recipient_parent].right_child = Some(recipient);
    } else {
        flat_tree.nodes[recipient_parent].right_child = Some(donor);
        flat_tree.nodes[recipient_parent].left_child = Some(recipient);
    }
    if let Some(t) = new_depth {
        flat_tree.nodes[recipient_parent].depth = Some(t);
    }
    // Promote the recipient's sibling into the vacated place.
    match recipient_grandparent {
        Some(gp) => {
            let gl = flat_tree.nodes[gp].left_child;
            if gl.is_some() && gl.unwrap() == recipient_parent {
                flat_tree.nodes[gp].left_child = Some(recipient_sibling);
            } else {
                flat_tree.nodes[gp].right_child = Some(recipient_sibling);
            }
            flat_tree.nodes[recipient_sibling].parent = Some(gp);
        },
        None => {
            flat_tree.nodes[recipient_sibling].parent = None;
            flat_tree.root = recipient_sibling;
        },
    }
    // Splice the lifted node into the edge above the donor.
    let dl = flat_tree.nodes[donor_parent].left_child;
    if dl.is_some() && dl.unwrap() == donor {
        flat_tree.nodes[donor_parent].left_child = Some(recipient_parent);
    } else {
        flat_tree.nodes[donor_parent].right_child = Some(recipient_parent);
    }
    flat_tree.nodes[donor].parent = Some(recipient_parent);
    proof {
        let new = flat_tree.nodes@;
        let target = spr_result_nodes(ns, donor as int, recipient as int, new_depth);
        assert forall|x: int| 0 <= x < ns.len() implies new[x] == target[x] by {
            assert(links_ok_at(ns, x));
        }
        assert(new =~= target);
        lemma_spr_preserves_wf(
            ns,
            *old(flat_tree),
            *flat_tree,
            donor as int,
            recipient as int,
            new_depth,
        );
    }
}

/// The slots a regraft touches are pairwise distinct wherever the move's
/// correctness needs them to be.
proof fn lemma_spr_distinct(ns: Seq<FlatNode>, d: int, r: int)
    requires
        ns.len() <= usize::MAX,
        acyclic(ns),
        forall|i: int| 0 <= i < ns.len() ==> #[trigger] links_ok_at(ns, i),
        0 <= d < ns.len(),
        0 <= r < ns.len(),
        d != r,
        ns[d].parent is Some,
        ns[r].parent is Some,
        ns[r].parent != Some(d as usize),
        !is_ancestor_of(ns, r, d),
        ns[d].parent->Some_0 as int != ns[r].parent->Some_0 as int,
    ensures
        ({
            let pd = ns[d].parent->Some_0 as int;
            let pr = ns[r].parent->Some_0 as int;
            let sr = sib_under(ns, pr, r);
            let ppr = ns[pr].parent;
            &&& 0 <= pd < ns.len() && 0 <= pr < ns.len() && 0 <= sr < ns.len()
            &&& ns[sr].parent == Some(pr as usize)
            &&& d != pd && r != pr && sr != r && sr != pr && d != pr && d != sr && r != pd
            &&& (ppr matches Some(gp) ==> 0 <= gp < ns.len() && gp as int != pr && gp as int != r
                && gp as int != sr)
        }),
{
    let pd = ns[d].parent->Some_0 as int;
    let pr = ns[r].parent->Some_0 as int;
    let sr = sib_under(ns, pr, r);
    let ppr = ns[pr].parent;
    assert(links_ok_at(ns, d));
    assert(links_ok_at(ns, r));
    assert(links_ok_at(ns, pr));
    assert(links_ok_at(ns, pd));
    lemma_chain_dist_step(ns, d);
    lemma_chain_dist_step(ns, r);
    assert(ns[sr].parent == Some(pr as usize));
    assert(links_ok_at(ns, sr));
    lemma_chain_dist_step(ns, sr);
    if r == pd {
        lemma_anc_step(ns, d);
        assert(false);
    }
    if ppr is Some {
        let gp = ppr->Some_0 as int;
        assert(links_ok_at(ns, gp));
        lemma_chain_dist_step(ns, pr);
        if gp == r {
            lemma_chain_dist_step(ns, r);
            assert(false);
        }
    }
}

proof fn lemma_spr_preserves_wf(
    ns: Seq<FlatNode>,
    told: FlatTree,
    tnew: FlatTree,
    d: int,
    r: int,
    nd: Option<u64>,
)
    requires
        ns == told.nodes@,
        ns.len() <= usize::MAX,
        wf(told),
        can_spr(told, d, r),
        ns[d].parent->Some_0 as int != ns[r].parent->Some_0 as int,
        tnew.nodes@ == spr_result_nodes(ns, d, r, nd),
        tnew.root as int == spr_result_root(told, d, r),
    ensures
        wf(tnew),
{
    lemma_spr_links(ns, told, tnew, d, r, nd);
    lemma_spr_rank(ns, told, tnew, d, r, nd);
}

#[verifier::rlimit(100)]
#[verifier::spinoff_prover]
proof fn lemma_spr_links(
    ns: Seq<FlatNode>,
    told: FlatTree,
    tnew: FlatTree,
    d: int,
    r: int,
    nd: Option<u64>,
)
    requires
        ns == told.nodes@,
        ns.len() <= usize::MAX,
        wf(told),
        can_spr(told, d, r),
        ns[d].parent->Some_0 as int != ns[r].parent->Some_0 as int,
        tnew.nodes@ == spr_result_nodes(ns, d, r, nd),
        tnew.root as int == spr_result_root(told, d, r),
    ensures
        links_ok(tnew),
{
    let new = tnew.nodes@;
    let pd = ns[d].parent->Some_0 as int;
    let pr = ns[r].parent->Some_0 as int;
    let sr = sib_under(ns, pr, r);
    let ppr = ns[pr].parent;
    lemma_spr_distinct(ns, d, r);
    assert(links_ok_at(ns, d));
    assert(links_ok_at(ns, r));
    assert(links_ok_at(ns, pr));
    assert(links_ok_at(ns, pd));
    assert(links_ok_at(ns, sr));
    if ppr is Some {
        assert(links_ok_at(ns, ppr->Some_0 as int));
    }
    assert forall|x: int| 0 <= x < new.len() implies links_ok_at(new, x) by {
        assert(links_ok_at(ns, x));
        if ns[x].left_child is Some {
            assert(links_ok_at(ns, ns[x].left_child->Some_0 as int));
        }
        if ns[x].right_child is Some {
            assert(links_ok_at(ns, ns[x].right_child->Some_0 as int));
        }
        if ns[x].parent is Some {
            assert(links_ok_at(ns, ns[x].parent->Some_0 as int));
        }
        if new[x].left_child is Some {
            assert(links_ok_at(ns, new[x].left_child->Some_0 as int));
        }
        if new[x].right_child is Some {
            assert(links_ok_at(ns, new[x].right_child->Some_0 as int));
        }
        if new[x].parent is Some {
            assert(links_ok_at(ns, new[x].parent->Some_0 as int));
        }
    }
    assert(new[tnew.root as int].parent is None);
}

#[verifier::rlimit(100)]
#[verifier::spinoff_prover]
proof fn lemma_spr_rank(
    ns: Seq<FlatNode>,
    told: FlatTree,
    tnew: FlatTree,
    d: int,
    r: int,
    nd: Option<u64>,
)
    requires
        ns == told.nodes@,
        ns.len() <= usize::MAX,
        wf(told),
        can_spr(told, d, r),
        ns[d].parent->Some_0 as int != ns[r].parent->Some_0 as int,
        tnew.nodes@ == spr_result_nodes(ns, d, r, nd),
        tnew.root as int == spr_result_root(told, d, r),
        links_ok(tnew),
    ensures
        acyclic(tnew.nodes@),
{
    let new = tnew.nodes@;
    let n = ns.len();
    let pd = ns[d].parent->Some_0 as int;
    let pr = ns[r].parent->Some_0 as int;
    let sr = sib_under(ns, pr, r);
    let ppr = ns[pr].parent;
    lemma_spr_distinct(ns, d, r);
    assert(links_ok_at(ns, d));
    assert(links_ok_at(ns, r));
    assert(links_ok_at(ns, pr));
    assert(links_ok_at(ns, pd));
    assert(links_ok_at(ns, sr));
    assert(parents_in_range(ns)) by {
        assert forall|x: int|
            0 <= x < ns.len() && #[trigger] ns[x].parent is Some implies ns[x].parent->Some_0
            < ns.len() by {
            assert(links_ok_at(ns, x));
        }
    }
    // Rank every slot of the two regrafted subtrees above every untouched
    // slot, with the lifted parent just under them.
    let in_moved = |x: int|
        x == d || x == r || is_ancestor_of(ns, d, x) || is_ancestor_of(ns, r, x);
    let phi = |x: int|
        if x == pr {
            2 * n
        } else if in_moved(x) {
            chain_dist(ns, x) + 2 * n + 1
        } else {
            chain_dist(ns, x)
        };
    assert forall|y: int| 0 <= y < ns.len() implies #[trigger] chain_dist(ns, y) < n by {
        lemma_chain_bound(ns, y, n);
    }
    assert forall|x: int|
        0 <= x < new.len() && new[x].parent is Some implies #[trigger] phi(
        new[x].parent->Some_0 as int,
    ) < phi(x) by {
        assert(links_ok_at(ns, x));
        let q = new[x].parent->Some_0 as int;
        if x == pr {
            // its new parent is the donor's old parent, which sits in no
            // moved subtree
            lemma_chain_dist_step(ns, d);
            lemma_anc_step(ns, d);
            lemma_anc_antisym(ns, pd, d);
            if is_ancestor_of(ns, r, pd) {
                lemma_anc_trans(ns, r, pd, d);
            }
            assert(!in_moved(pd));
        } else if x == sr && ppr is Some {
            let gp = ppr->Some_0 as int;
            lemma_chain_dist_step(ns, pr);
            lemma_chain_dist_step(ns, sr);
            lemma_anc_step(ns, pr);
            lemma_anc_step(ns, sr);
            lemma_anc_step(ns, r);
            lemma_anc_trans(ns, gp, pr, sr);
            lemma_anc_trans(ns, gp, pr, r);
            lemma_anc_antisym(ns, gp, r);
            lemma_anc_unfold(ns, d, sr);
            lemma_anc_unfold(ns, d, pr);
            lemma_anc_unfold(ns, r, sr);
            lemma_anc_unfold(ns, r, pr);
            if in_moved(sr) {
                if in_moved(gp) {
                    // both sit in the donor's subtree, two levels apart
                } else {
                    assert(gp == d || phi(gp) == chain_dist(ns, gp));
                }
            } else {
                assert(gp != d && !is_ancestor_of(ns, d, gp));
                assert(gp != r && !is_ancestor_of(ns, r, gp));
                assert(!in_moved(gp));
            }
        } else if x == d {
            // its new parent is the lifted node, ranked 2n, and the donor
            // itself is moved
            assert(in_moved(d));
        } else {
            // an untouched slot keeps its parent
            assert(q == ns[x].parent->Some_0 as int);
            lemma_chain_dist_step(ns, x);
            if q == pr {
                // reciprocity forces x to be one of the lifted node's old
                // children; the sibling was handled above, so x is the
                // recipient
                assert(x == r || x == sr);
                assert(x == r);
                assert(in_moved(x));
            } else {
                if x != d && x != r && is_ancestor_of(ns, d, x) {
                    lemma_anc_unfold(ns, d, x);
                }
                if x != d && x != r && is_ancestor_of(ns, r, x) {
                    lemma_anc_unfold(ns, r, x);
                }
                if !in_moved(x) {
                    lemma_anc_step(ns, x);
                    if is_ancestor_of(ns, d, q) {
                        lemma_anc_trans(ns, d, q, x);
                    }
                    if is_ancestor_of(ns, r, q) {
                        lemma_anc_trans(ns, r, q, x);
                    }
                    assert(!in_moved(q));
                }
            }
        }
    }
    assert(parents_in_range(new)) by {
        assert forall|x: int|
            0 <= x < new.len() && #[trigger] new[x].parent is Some implies new[x].parent->Some_0
            < new.len() by {
            assert(links_ok_at(new, x));
        }
    }
    lemma_acyclic_from_rank(new, phi);
}

/// Applies one time-dated transfer: the subtree above `recipient` is split
/// off and regrafted into the edge above `donor` at absolute time `time`.
/// Afterwards the donor's parent is the recipient's former parent and its
/// depth is the transfer time; when the two were already siblings only that
/// depth changes.
pub fn spr(flat_tree: &mut FlatTree, donor: usize, recipient: usize, time: u64)
    requires
        wf(*old(flat_tree)),
        can_spr(*old(flat_tree), donor as int, recipient as int),
    ensures
        wf(*final(flat_tree)),
        final(flat_tree).nodes@ == spr_result_nodes(
            old(flat_tree).nodes@,
            donor as int,
            recipient as int,
            Some(time),
        ),
        final(flat_tree).root as int == spr_result_root(
            *old(flat_tree),
            donor as int,
            recipient as int,
        ),
        final(flat_tree).nodes@[donor as int].parent == old(flat_tree).nodes@[recipient as int].parent,
        final(flat_tree).nodes@[old(flat_tree).nodes@[recipient as int].parent->Some_0 as int].depth
            == Some(time),
{
    let len_bound = flat_tree.nodes.len();
    proof {
        assert(old(flat_tree).nodes@.len() == len_bound);
        assert(links_ok_at(old(flat_tree).nodes@, donor as int));
        assert(links_ok_at(old(flat_tree).nodes@, recipient as int));
    }
    spr_apply(flat_tree, donor, recipient, Some(time));
    proof {
        let ns = old(flat_tree).nodes@;
        let d = donor as int;
        let r = recipient as int;
        let pd = ns[d].parent->Some_0 as int;
        let pr = ns[r].parent->Some_0 as int;
        assert(flat_tree.nodes@[pr].depth == Some(time));
        if pd == pr {
            assert(flat_tree.nodes@[d].parent == ns[d].parent);
        } else {
            lemma_spr_distinct(ns, d, r);
            assert(flat_tree.nodes@[d].parent == Some(ns[r].parent->Some_0));
        }
    }
}

/// The same regraft without a transfer time: the tree's depths are left
/// untouched.  Donor and recipient play the same roles as in [`spr`].
pub fn spr_topology(flat_tree: &mut FlatTree, donor: usize, recipient: usize)
    requires
        wf(*old(flat_tree)),
        can_spr(*old(flat_tree), donor as int, recipient as int),
    ensures
        wf(*final(flat_tree)),
        final(flat_tree).nodes@ == spr_result_nodes(
            old(flat_tree).nodes@,
            donor as int,
            recipient as int,
            None,
        ),
        final(flat_tree).root as int == spr_result_root(
            *old(flat_tree),
            donor as int,
            recipient as int,
        ),
{
    spr_apply(flat_tree, donor, recipient, None);
}

/// The decision ladder of [`FlatTree::spr_topology`]: the error the checks
/// produce for a pair of indices, or `None` when the move is allowed.
pub open spec fn spr_check(t: FlatTree, moving: int, recipient: int) -> Option<SprError> {
    let nodes = t.nodes@;
    if !(0 <= moving < nodes.len()) {
        Some(SprError::InvalidDonor(moving as usize))
    } else if !(0 <= recipient < nodes.len()) {
        Some(SprError::InvalidRecipient(recipient as usize))
    } else if moving == t.root {
        Some(SprError::InvalidDonor(moving as usize))
    } else if recipient == t.root {
        Some(SprError::InvalidRecipient(recipient as usize))
    } else if moving == recipient {
        Some(SprError::InvalidMove(moving as usize, recipient as usize))
    } else if nodes[moving].parent is None {
        Some(SprError::TreeError(moving as usize))
    } else if nodes[recipient].parent is None {
        Some(SprError::TreeError(recipient as usize))
    } else if nodes[moving].parent == Some(recipient as usize) {
        Some(SprError::InvalidMove(moving as usize, recipient as usize))
    } else if is_ancestor_of(nodes, moving, recipient) {
        Some(SprError::InvalidMove(moving as usize, recipient as usize))
    } else if nodes[nodes[moving].parent->Some_0 as int].parent is None
        && nodes[moving].parent->Some_0 != t.root {
        Some(SprError::TreeError(nodes[moving].parent->Some_0 as usize))
    } else {
        None
    }
}

impl FlatTree {
    /// Moves the subtree at `moving_node_index`, regrafting it next to
    /// `recipient_idx`: the moving node's parent is reused as the new split
    /// node, and the moving node's sibling is promoted into its place.  Each
    /// refused input is reported through the matching [`SprError`]; a
    /// refused move leaves the tree untouched.  A move between siblings is
    /// accepted and changes nothing.
    pub fn spr_topology(&mut self, moving_node_index: usize, recipient_idx: usize) -> (res: Result<
        (),
        SprError,
    >)
        requires
            wf(*old(self)),
        ensures
            wf(*final(self)),
            match res {
                Ok(()) => spr_check(*old(self), moving_node_index as int, recipient_idx as int)
                    is None && can_spr(
                    *old(self),
                    recipient_idx as int,
                    moving_node_index as int,
                ) && final(self).nodes@ == spr_result_nodes(
                    old(self).nodes@,
                    recipient_idx as int,
                    moving_node_index as int,
                    None,
                ) && final(self).root as int == spr_result_root(
                    *old(self),
                    recipient_idx as int,
                    moving_node_index as int,
                ),
                Err(e) => spr_check(*old(self), moving_node_index as int, recipient_idx as int)
                    == Some(e) && *final(self) == *old(self),
            },
    {
        let n = self.nodes.len();
        if moving_node_index >= n {
            return Err(SprError::InvalidDonor(moving_node_index));
        }
        if recipient_idx >= n {
            return Err(SprError::InvalidRecipient(recipient_idx));
        }
        if moving_node_index == self.root {
            return Err(SprError::InvalidDonor(moving_node_index));
        }
        if recipient_idx == self.root {
            return Err(SprError::InvalidRecipient(recipient_idx));
        }
        if moving_node_index == recipient_idx {
            return Err(SprError::InvalidMove(moving_node_index, recipient_idx));
        }
        let moving_parent = self.nodes[moving_node_index].parent;
        if moving_parent.is_none() {
            return Err(SprError::TreeError(moving_node_index));
        }
        if self.nodes[recipient_idx].parent.is_none() {
            return Err(SprError::TreeError(recipient_idx));
        }
        let mp = moving_parent.unwrap();
        proof {
            assert(links_ok_at(self.nodes@, moving_node_index as int));
            assert(links_ok_at(self.nodes@, recipient_idx as int));
        }
        if mp == recipient_idx {
            return Err(SprError::InvalidMove(moving_node_index, recipient_idx));
        }
        if self.is_ancestor(moving_node_index, recipient_idx) {
            return Err(SprError::InvalidMove(moving_node_index, recipient_idx));
        }
        if self.nodes[mp].parent.is_none() && mp != self.root {
            return Err(SprError::TreeError(mp));
        }
        spr_apply(self, recipient_idx, moving_node_index, None);
        Ok(())
    }
}

} // verus!
