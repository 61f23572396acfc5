//! The grow-distribution pass in a tree, node by node: each node's
//! children end with what the node, at the size it ended with itself,
//! shared out among the sizes its children came with.

use crate::agree::{lemma_grow_level_same, lemma_same_shape_sym};
use crate::grow::{
    grow_children, grow_level, grow_sizes, lemma_grow_children_frame, lemma_grow_frame,
    lemma_grow_level_frame,
};
use crate::store::{
    lemma_resize_same_shape, lemma_same_shape_ranked, lemma_same_shape_trans, ranked, same_shape,
    ElementIdx, NodeMap, RankMap,
};
use crate::tree::{
    disjoint_trees, in_children, in_subtree, is_tree, kids_of, lemma_disjoint_pair,
    lemma_in_children, lemma_listed, lemma_same_shape_kids, lemma_subtree_child,
    lemma_subtree_rank, listed,
};
use vstd::prelude::*;

verus! {

/// The size of the child at place `j` of `p` after `p`, at size `size`,
/// has shared out its leftover space among its children as they are in
/// `before`.
pub open spec fn share_of(before: NodeMap, p: ElementIdx, size: crate::geometry::Vec2, j: int)
    -> crate::geometry::Vec2 {
    grow_level(before.insert(p, before[p].sized(size)), p)[before[p].children@[j]].size
}

/// Every child of `p` has, in `after`, the size that `p` shared out to it:
/// `p` at the size it has in `after`, the children at the sizes they have
/// in `before`.
pub open spec fn shared_by(before: NodeMap, after: NodeMap, p: ElementIdx) -> bool {
    forall|j: int|
        0 <= j < before[p].children@.len() ==> after[#[trigger] before[p].children@[j]].size
            == share_of(before, p, after[p].size, j)
}

/// What a node shares out depends on the node and on the sizes of its
/// children alone.
pub proof fn lemma_share_same(
    a: NodeMap,
    b: NodeMap,
    rank: RankMap,
    p: ElementIdx,
    size: crate::geometry::Vec2,
    j: int,
)
    requires
        same_shape(a, b),
        ranked(a, rank),
        a.dom().contains(p),
        0 <= j < a[p].children@.len(),
        forall|i: int|
            0 <= i < a[p].children@.len() ==> a[#[trigger] a[p].children@[i]].size
                == b[a[p].children@[i]].size,
    ensures
        share_of(a, p, size, j) == share_of(b, p, size, j),
{
    let x = a.insert(p, a[p].sized(size));
    let y = b.insert(p, b[p].sized(size));
    assert(a[p].children == b[p].children);
    lemma_resize_same_shape(a, p, a[p].sized(size));
    lemma_resize_same_shape(b, p, b[p].sized(size));
    lemma_same_shape_sym(a, x);
    lemma_same_shape_trans(x, a, b);
    lemma_same_shape_trans(x, b, y);
    lemma_same_shape_ranked(a, x, rank);
    assert forall|i: int| 0 <= i < x[p].children@.len() implies x[
    #[trigger] x[p].children@[i]].size == y[x[p].children@[i]].size by {
        let q = a[p].children@[i];
        assert(rank[q] < rank[p]);
    }
    lemma_grow_level_same(x, y, rank, p);
    let q = a[p].children@[j];
    assert(rank[q] < rank[p]);
    assert(x.dom().contains(q));
}

/// In a tree, the grow-distribution pass leaves the node it starts from as
/// it is, and every child of every node of the subtree with what its
/// parent shared out to it.
pub proof fn lemma_grow_law(nodes: NodeMap, rank: RankMap, id: ElementIdx)
    requires
        ranked(nodes, rank),
        nodes.dom().contains(id),
        is_tree(kids_of(nodes), rank, id),
    ensures
        grow_sizes(nodes, rank, id)[id] == nodes[id],
        forall|p: ElementIdx| #[trigger]
            in_subtree(kids_of(nodes), rank, id, p) ==> shared_by(
                nodes,
                grow_sizes(nodes, rank, id),
                p,
            ),
    decreases rank[id], 1nat, 0nat,
{
    let kids = kids_of(nodes);
    let cs = nodes[id].children@;
    let n = cs.len();
    assert(kids[id] == cs);
    lemma_grow_level_frame(nodes, rank, id);
    let level = grow_level(nodes, id);
    lemma_same_shape_ranked(nodes, level, rank);
    lemma_same_shape_kids(nodes, level);
    assert forall|j: int| 0 <= j < n implies level.dom().contains(#[trigger] cs[j])
        && rank[cs[j]] < rank[id] by {
        assert(nodes[id].children@[j] == cs[j]);
    }
    lemma_grow_children_law(level, rank, cs, n, rank[id]);
    lemma_grow_frame(nodes, rank, id);
    let result = grow_children(level, rank, cs, n, rank[id]);
    assert(result == grow_sizes(nodes, rank, id));
    assert(nodes.insert(id, nodes[id].sized(nodes[id].size)) =~= nodes);
    assert forall|p: ElementIdx| #[trigger] in_subtree(kids, rank, id, p) implies shared_by(
        nodes,
        result,
        p,
    ) by {
        if p != id {
            assert(in_children(kids, rank, cs, n, rank[id], p));
            assert(shared_by(level, result, p));
            lemma_subtree_rank(nodes, rank, id, p);
            lemma_in_children(kids, rank, cs, n, rank[id], p);
            let t = choose|t: int|
                0 <= t < n && rank[cs[t]] < rank[id] && in_subtree(kids, rank, #[trigger] cs[t], p);
            assert(level[p].children == nodes[p].children);
            // No child of `p` is a child of `id`: the sizes that `p` finds
            // are those its children came with.
            assert forall|i: int| 0 <= i < nodes[p].children@.len() implies level[
            #[trigger] nodes[p].children@[i]].size == nodes[nodes[p].children@[i]].size by {
                let q = nodes[p].children@[i];
                lemma_subtree_child(nodes, rank, cs[t], p, i);
                lemma_listed(cs, n, q);
                if listed(cs, n, q) {
                    let s = choose|s: int| 0 <= s < n && #[trigger] cs[s] == q;
                    assert(in_subtree(kids, rank, cs[s], q));
                    if s < t {
                        lemma_disjoint_pair(kids, rank, cs, n, rank[id], s, t, q);
                    } else if t < s {
                        lemma_disjoint_pair(kids, rank, cs, n, rank[id], t, s, q);
                    }
                }
            }
            assert forall|j: int| 0 <= j < nodes[p].children@.len() implies result[
            #[trigger] nodes[p].children@[j]].size == share_of(nodes, p, result[p].size, j) by {
                lemma_same_shape_sym(nodes, level);
                assert forall|i: int| 0 <= i < level[p].children@.len() implies level[
                #[trigger] level[p].children@[i]].size == nodes[level[p].children@[i]].size by {
                    assert(level[p].children@[i] == nodes[p].children@[i]);
                }
                lemma_share_same(level, nodes, rank, p, result[p].size, j);
            }
        }
    }
}

/// As [`lemma_grow_law`], for the first `k` children in `cs`, which are
/// disjoint trees; the children themselves stay as they are.
pub proof fn lemma_grow_children_law(
    a: NodeMap,
    rank: RankMap,
    cs: Seq<ElementIdx>,
    k: nat,
    bound: nat,
)
    requires
        ranked(a, rank),
        k <= cs.len(),
        forall|j: int| 0 <= j < k ==> a.dom().contains(#[trigger] cs[j]) && rank[cs[j]] < bound,
        disjoint_trees(kids_of(a), rank, cs, k, bound),
    ensures
        forall|j: int|
            0 <= j < k ==> grow_children(a, rank, cs, k, bound)[#[trigger] cs[j]] == a[cs[j]],
        forall|p: ElementIdx| #[trigger]
            in_children(kids_of(a), rank, cs, k, bound, p) ==> shared_by(
                a,
                grow_children(a, rank, cs, k, bound),
                p,
            ),
    decreases bound, 0nat, k,
{
    if k > 0 {
        let kids = kids_of(a);
        let prev = (k - 1) as nat;
        lemma_grow_children_law(a, rank, cs, prev, bound);
        lemma_grow_children_frame(a, rank, cs, prev, bound);
        let before = grow_children(a, rank, cs, prev, bound);
        let c = cs[k - 1];
        lemma_same_shape_ranked(a, before, rank);
        lemma_same_shape_kids(a, before);
        lemma_grow_law(before, rank, c);
        lemma_grow_frame(before, rank, c);
        let result = grow_sizes(before, rank, c);
        assert(result == grow_children(a, rank, cs, k, bound));
        assert(in_subtree(kids, rank, c, c));
        assert forall|m: ElementIdx| #[trigger] in_subtree(kids, rank, c, m) implies before[m]
            == a[m] by {}
        assert forall|m: ElementIdx| #[trigger]
            in_children(kids, rank, cs, prev, bound, m) implies result[m] == before[m] by {
            assert(!in_subtree(kids, rank, c, m));
        }
        assert forall|j: int| 0 <= j < k implies result[#[trigger] cs[j]] == a[cs[j]] by {
            if j < k - 1 {
                lemma_in_children(kids, rank, cs, prev, bound, cs[j]);
                assert(in_subtree(kids, rank, cs[j], cs[j]));
            }
        }
        assert forall|p: ElementIdx| #[trigger]
            in_children(kids, rank, cs, k, bound, p) implies shared_by(a, result, p) by {
            if in_subtree(kids, rank, c, p) {
                lemma_subtree_rank(before, rank, c, p);
                assert(shared_by(before, result, p));
                assert forall|j: int| 0 <= j < a[p].children@.len() implies result[
                #[trigger] a[p].children@[j]].size == share_of(a, p, result[p].size, j) by {
                    assert forall|i: int| 0 <= i < before[p].children@.len() implies before[
                    #[trigger] before[p].children@[i]].size == a[before[p].children@[i]].size by {
                        lemma_subtree_child(before, rank, c, p, i);
                    }
                    lemma_same_shape_sym(a, before);
                    lemma_share_same(before, a, rank, p, result[p].size, j);
                }
            } else {
                assert(in_children(kids, rank, cs, prev, bound, p));
                assert(shared_by(a, before, p));
                lemma_in_children(kids, rank, cs, prev, bound, p);
                let t = choose|t: int|
                    0 <= t < prev && rank[cs[t]] < bound && in_subtree(
                        kids,
                        rank,
                        #[trigger] cs[t],
                        p,
                    );
                lemma_subtree_rank(a, rank, cs[t], p);
                assert forall|j: int| 0 <= j < a[p].children@.len() implies result[
                #[trigger] a[p].children@[j]].size == share_of(a, p, result[p].size, j) by {
                    lemma_subtree_child(a, rank, cs[t], p, j);
                    lemma_in_children(kids, rank, cs, prev, bound, a[p].children@[j]);
                }
            }
        }
    }
}

} // verus!
