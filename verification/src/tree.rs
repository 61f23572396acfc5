//! Subtrees: which nodes lie below a node, and when the nodes below a node
//! form a tree.

use crate::store::{ranked, same_shape, ElementIdx, NodeMap, RankMap};
use vstd::prelude::*;

verus! {

/// The children of each node, by handle.
pub type KidsMap = Map<ElementIdx, Seq<ElementIdx>>;

/// The children lists of the node records.
pub open spec fn kids_of(nodes: NodeMap) -> KidsMap {
    Map::new(|id: ElementIdx| nodes.dom().contains(id), |id: ElementIdx| nodes[id].children@)
}

/// Whether `m` is `id` itself or lies below it.
pub open spec fn in_subtree(kids: KidsMap, rank: RankMap, id: ElementIdx, m: ElementIdx) -> bool
    decreases rank[id], 1nat, 0nat,
{
    m == id || in_children(kids, rank, kids[id], kids[id].len(), rank[id], m)
}

/// Whether `m` lies in the subtree of one of the first `k` nodes in `cs`.
/// `bound` is the parent's number.
pub open spec fn in_children(
    kids: KidsMap,
    rank: RankMap,
    cs: Seq<ElementIdx>,
    k: nat,
    bound: nat,
    m: ElementIdx,
) -> bool
    decreases bound, 0nat, k,
{
    if k == 0 {
        false
    } else if in_children(kids, rank, cs, (k - 1) as nat, bound, m) {
        true
    } else if rank[cs[k - 1]] < bound {
        in_subtree(kids, rank, cs[k - 1], m)
    } else {
        false
    }
}

/// The subtrees of the first `k` nodes in `cs` share no node, and each of
/// them is a tree.
pub open spec fn disjoint_trees(
    kids: KidsMap,
    rank: RankMap,
    cs: Seq<ElementIdx>,
    k: nat,
    bound: nat,
) -> bool
    decreases bound, 0nat, k,
{
    if k == 0 {
        true
    } else {
        let c = cs[k - 1];
        let before = (k - 1) as nat;
        &&& disjoint_trees(kids, rank, cs, before, bound)
        &&& rank[c] < bound
        &&& is_tree(kids, rank, c)
        &&& forall|m: ElementIdx| #[trigger]
            in_subtree(kids, rank, c, m) ==> !in_children(kids, rank, cs, before, bound, m)
    }
}

/// The nodes below `id` form a tree: no node is reached along two ways.
pub open spec fn is_tree(kids: KidsMap, rank: RankMap, id: ElementIdx) -> bool
    decreases rank[id], 1nat, 0nat,
{
    disjoint_trees(kids, rank, kids[id], kids[id].len(), rank[id])
}

/// Whether `m` is one of the first `k` nodes in `cs`.
pub open spec fn listed(cs: Seq<ElementIdx>, k: nat, m: ElementIdx) -> bool
    decreases k,
{
    if k == 0 {
        false
    } else if cs[k - 1] == m {
        true
    } else {
        listed(cs, (k - 1) as nat, m)
    }
}

/// A node is listed exactly if it stands at one of the places.
pub proof fn lemma_listed(cs: Seq<ElementIdx>, k: nat, m: ElementIdx)
    ensures
        listed(cs, k, m) <==> exists|j: int| 0 <= j < k && #[trigger] cs[j] == m,
    decreases k,
{
    if k > 0 {
        lemma_listed(cs, (k - 1) as nat, m);
        if cs[k - 1] == m {
            assert(0 <= k - 1 < k && cs[k - 1] == m);
        } else if listed(cs, (k - 1) as nat, m) {
            let j = choose|j: int| 0 <= j < k - 1 && #[trigger] cs[j] == m;
            assert(0 <= j < k && cs[j] == m);
        } else {
            if exists|j: int| 0 <= j < k && #[trigger] cs[j] == m {
                let j = choose|j: int| 0 <= j < k && #[trigger] cs[j] == m;
                assert(j < k - 1);
            }
        }
    }
}

/// Maps of the same shape have the same children lists.
pub proof fn lemma_same_shape_kids(a: NodeMap, b: NodeMap)
    requires
        same_shape(a, b),
    ensures
        kids_of(a) == kids_of(b),
{
    assert forall|id: ElementIdx| a.dom().contains(id) implies a[id].children@
        == b[id].children@ by {
        assert(a[id].children == b[id].children);
    }
    assert(kids_of(a) =~= kids_of(b));
}

/// A node below one of the first `k` nodes lies below one of them in
/// particular.
pub proof fn lemma_in_children(
    kids: KidsMap,
    rank: RankMap,
    cs: Seq<ElementIdx>,
    k: nat,
    bound: nat,
    m: ElementIdx,
)
    ensures
        in_children(kids, rank, cs, k, bound, m) <==> exists|j: int|
            0 <= j < k && rank[cs[j]] < bound && in_subtree(kids, rank, #[trigger] cs[j], m),
    decreases k,
{
    if k > 0 {
        lemma_in_children(kids, rank, cs, (k - 1) as nat, bound, m);
        if in_children(kids, rank, cs, (k - 1) as nat, bound, m) {
            let j = choose|j: int|
                0 <= j < k - 1 && rank[cs[j]] < bound && in_subtree(
                    kids,
                    rank,
                    #[trigger] cs[j],
                    m,
                );
            assert(0 <= j < k && rank[cs[j]] < bound && in_subtree(kids, rank, cs[j], m));
        } else if rank[cs[k - 1]] < bound && in_subtree(kids, rank, cs[k - 1], m) {
            assert(0 <= k - 1 < k && rank[cs[k - 1]] < bound);
        } else {
            if exists|j: int|
                0 <= j < k && rank[cs[j]] < bound && in_subtree(kids, rank, #[trigger] cs[j], m) {
                let j = choose|j: int|
                    0 <= j < k && rank[cs[j]] < bound && in_subtree(
                        kids,
                        rank,
                        #[trigger] cs[j],
                        m,
                    );
                assert(j < k - 1);
            }
        }
    }
}

/// A node below `id` has no larger number than `id`, and is a node of the
/// arena if `id` is.
pub proof fn lemma_subtree_rank(nodes: NodeMap, rank: RankMap, id: ElementIdx, m: ElementIdx)
    requires
        ranked(nodes, rank),
        nodes.dom().contains(id),
        in_subtree(kids_of(nodes), rank, id, m),
    ensures
        rank[m] <= rank[id],
        nodes.dom().contains(m),
        m != id ==> rank[m] < rank[id],
    decreases rank[id],
{
    if m != id {
        let kids = kids_of(nodes);
        lemma_in_children(kids, rank, kids[id], kids[id].len(), rank[id], m);
        let j = choose|j: int|
            0 <= j < kids[id].len() && rank[kids[id][j]] < rank[id] && in_subtree(
                kids,
                rank,
                #[trigger] kids[id][j],
                m,
            );
        assert(nodes[id].children@[j] == kids[id][j]);
        lemma_subtree_rank(nodes, rank, kids[id][j], m);
    }
}

/// A node does not lie below its own children.
pub proof fn lemma_not_below_children(nodes: NodeMap, rank: RankMap, id: ElementIdx, k: nat)
    requires
        ranked(nodes, rank),
        nodes.dom().contains(id),
        k <= nodes[id].children@.len(),
    ensures
        !in_children(kids_of(nodes), rank, nodes[id].children@, k, rank[id], id),
{
    let kids = kids_of(nodes);
    let cs = nodes[id].children@;
    lemma_in_children(kids, rank, cs, k, rank[id], id);
    if in_children(kids, rank, cs, k, rank[id], id) {
        let j = choose|j: int|
            0 <= j < k && rank[cs[j]] < rank[id] && in_subtree(kids, rank, #[trigger] cs[j], id);
        assert(nodes[id].children@[j] == cs[j]);
        lemma_subtree_rank(nodes, rank, cs[j], id);
    }
}

/// The children of a node lie below it.
pub proof fn lemma_child_in_subtree(nodes: NodeMap, rank: RankMap, id: ElementIdx, j: int)
    requires
        ranked(nodes, rank),
        nodes.dom().contains(id),
        0 <= j < nodes[id].children@.len(),
    ensures
        in_subtree(kids_of(nodes), rank, id, nodes[id].children@[j]),
        in_children(
            kids_of(nodes),
            rank,
            nodes[id].children@,
            nodes[id].children@.len(),
            rank[id],
            nodes[id].children@[j],
        ),
{
    let kids = kids_of(nodes);
    let cs = nodes[id].children@;
    lemma_in_children(kids, rank, cs, cs.len(), rank[id], cs[j]);
    assert(in_subtree(kids, rank, cs[j], cs[j]));
    assert(rank[cs[j]] < rank[id]);
}

/// What lies below a node's child lies below the node.
pub proof fn lemma_below_child(
    nodes: NodeMap,
    rank: RankMap,
    id: ElementIdx,
    j: int,
    m: ElementIdx,
)
    requires
        ranked(nodes, rank),
        nodes.dom().contains(id),
        0 <= j < nodes[id].children@.len(),
        in_subtree(kids_of(nodes), rank, nodes[id].children@[j], m),
    ensures
        in_subtree(kids_of(nodes), rank, id, m),
        in_children(
            kids_of(nodes),
            rank,
            nodes[id].children@,
            nodes[id].children@.len(),
            rank[id],
            m,
        ),
{
    let kids = kids_of(nodes);
    let cs = nodes[id].children@;
    lemma_in_children(kids, rank, cs, cs.len(), rank[id], m);
    assert(rank[cs[j]] < rank[id]);
}

/// The children of a node below `top` lie below `top`.
pub proof fn lemma_subtree_child(
    nodes: NodeMap,
    rank: RankMap,
    top: ElementIdx,
    p: ElementIdx,
    j: int,
)
    requires
        ranked(nodes, rank),
        nodes.dom().contains(top),
        in_subtree(kids_of(nodes), rank, top, p),
        0 <= j < nodes[p].children@.len(),
    ensures
        in_subtree(kids_of(nodes), rank, top, nodes[p].children@[j]),
        nodes[p].children@[j] != top,
        in_children(
            kids_of(nodes),
            rank,
            nodes[top].children@,
            nodes[top].children@.len(),
            rank[top],
            nodes[p].children@[j],
        ),
    decreases rank[top],
{
    let kids = kids_of(nodes);
    let q = nodes[p].children@[j];
    lemma_subtree_rank(nodes, rank, top, p);
    assert(rank[q] < rank[p]);
    if p == top {
        lemma_child_in_subtree(nodes, rank, top, j);
    } else {
        let cs = kids[top];
        lemma_in_children(kids, rank, cs, cs.len(), rank[top], p);
        let i = choose|i: int|
            0 <= i < cs.len() && rank[cs[i]] < rank[top] && in_subtree(
                kids,
                rank,
                #[trigger] cs[i],
                p,
            );
        assert(nodes[top].children@[i] == cs[i]);
        lemma_subtree_child(nodes, rank, cs[i], p, j);
        lemma_below_child(nodes, rank, top, i, q);
    }
}

/// Every node of a tree is the top of a tree.
pub proof fn lemma_tree_below(nodes: NodeMap, rank: RankMap, top: ElementIdx, p: ElementIdx)
    requires
        ranked(nodes, rank),
        nodes.dom().contains(top),
        is_tree(kids_of(nodes), rank, top),
        in_subtree(kids_of(nodes), rank, top, p),
    ensures
        is_tree(kids_of(nodes), rank, p),
    decreases rank[top],
{
    if p != top {
        let kids = kids_of(nodes);
        let cs = kids[top];
        lemma_in_children(kids, rank, cs, cs.len(), rank[top], p);
        let i = choose|i: int|
            0 <= i < cs.len() && rank[cs[i]] < rank[top] && in_subtree(
                kids,
                rank,
                #[trigger] cs[i],
                p,
            );
        lemma_disjoint_prefix(kids, rank, cs, cs.len(), rank[top], 0);
        assert(nodes[top].children@[i] == cs[i]);
        lemma_tree_below(nodes, rank, cs[i], p);
    }
}

/// The top of a tree lists no child twice.
pub proof fn lemma_tree_children_differ(
    nodes: NodeMap,
    rank: RankMap,
    p: ElementIdx,
    i: int,
    j: int,
)
    requires
        ranked(nodes, rank),
        nodes.dom().contains(p),
        is_tree(kids_of(nodes), rank, p),
        0 <= i < j < nodes[p].children@.len(),
    ensures
        nodes[p].children@[i] != nodes[p].children@[j],
{
    let kids = kids_of(nodes);
    let cs = kids[p];
    assert(in_subtree(kids, rank, cs[j], cs[j]));
    lemma_disjoint_pair(kids, rank, cs, cs.len(), rank[p], i, j, cs[j]);
    assert(in_subtree(kids, rank, cs[i], cs[i]));
}

/// Among the first `k` of a list of disjoint trees, a later one holds no
/// node of an earlier one.
pub proof fn lemma_disjoint_prefix(
    kids: KidsMap,
    rank: RankMap,
    cs: Seq<ElementIdx>,
    k: nat,
    bound: nat,
    j: nat,
)
    requires
        disjoint_trees(kids, rank, cs, k, bound),
        j <= k,
    ensures
        disjoint_trees(kids, rank, cs, j, bound),
        forall|i: int| j <= i < k ==> rank[#[trigger] cs[i]] < bound && is_tree(kids, rank, cs[i]),
    decreases k,
{
    if j < k {
        lemma_disjoint_prefix(kids, rank, cs, (k - 1) as nat, bound, j);
    }
}

/// Two different ones of a list of disjoint trees share no node.
pub proof fn lemma_disjoint_pair(
    kids: KidsMap,
    rank: RankMap,
    cs: Seq<ElementIdx>,
    k: nat,
    bound: nat,
    i: int,
    t: int,
    m: ElementIdx,
)
    requires
        disjoint_trees(kids, rank, cs, k, bound),
        0 <= i < t < k,
        in_subtree(kids, rank, cs[t], m),
    ensures
        !in_subtree(kids, rank, cs[i], m),
    decreases k,
{
    if t < k - 1 {
        lemma_disjoint_pair(kids, rank, cs, (k - 1) as nat, bound, i, t, m);
    } else {
        lemma_disjoint_prefix(kids, rank, cs, k, bound, (i + 1) as nat);
        lemma_in_children(kids, rank, cs, (k - 1) as nat, bound, m);
        assert(!in_children(kids, rank, cs, (k - 1) as nat, bound, m));
    }
}

/// No node is listed twice as a child: neither by two nodes, nor twice by
/// one.
pub open spec fn forest(nodes: NodeMap) -> bool {
    forall|a: ElementIdx, i: int, b: ElementIdx, j: int|
        #![trigger nodes[a].children@[i], nodes[b].children@[j]]
        nodes.dom().contains(a) && nodes.dom().contains(b) && 0 <= i < nodes[a].children@.len()
            && 0 <= j < nodes[b].children@.len() && nodes[a].children@[i]
            == nodes[b].children@[j] ==> a == b && i == j
}

/// A node below `top`, other than `top`, is the child of a node below
/// `top`.
pub proof fn lemma_parent_below(nodes: NodeMap, rank: RankMap, top: ElementIdx, q: ElementIdx)
    requires
        ranked(nodes, rank),
        nodes.dom().contains(top),
        in_subtree(kids_of(nodes), rank, top, q),
        q != top,
    ensures
        exists|z: ElementIdx, j: int|
            in_subtree(kids_of(nodes), rank, top, z) && nodes.dom().contains(z) && 0 <= j
                < nodes[z].children@.len() && #[trigger] nodes[z].children@[j] == q,
    decreases rank[top],
{
    let kids = kids_of(nodes);
    let cs = kids[top];
    lemma_in_children(kids, rank, cs, cs.len(), rank[top], q);
    let i = choose|i: int|
        0 <= i < cs.len() && rank[cs[i]] < rank[top] && in_subtree(kids, rank, #[trigger] cs[i], q);
    assert(nodes[top].children@[i] == cs[i]);
    if q == cs[i] {
        assert(in_subtree(kids, rank, top, top));
    } else {
        lemma_parent_below(nodes, rank, cs[i], q);
        let (z, j) = choose|z: ElementIdx, j: int|
            in_subtree(kids, rank, cs[i], z) && nodes.dom().contains(z) && 0 <= j
                < nodes[z].children@.len() && #[trigger] nodes[z].children@[j] == q;
        lemma_below_child(nodes, rank, top, i, z);
        assert(in_subtree(kids, rank, top, z) && nodes[z].children@[j] == q);
    }
}

/// In a forest, two nodes with a common node below them lie one below the
/// other.
pub proof fn lemma_comparable(
    nodes: NodeMap,
    rank: RankMap,
    x: ElementIdx,
    y: ElementIdx,
    m: ElementIdx,
)
    requires
        ranked(nodes, rank),
        forest(nodes),
        nodes.dom().contains(x),
        nodes.dom().contains(y),
        in_subtree(kids_of(nodes), rank, x, m),
        in_subtree(kids_of(nodes), rank, y, m),
    ensures
        in_subtree(kids_of(nodes), rank, x, y) || in_subtree(kids_of(nodes), rank, y, x),
    decreases rank[x] - rank[m],
{
    let kids = kids_of(nodes);
    if m != x && m != y {
        lemma_parent_below(nodes, rank, x, m);
        let (z, j) = choose|z: ElementIdx, j: int|
            in_subtree(kids, rank, x, z) && nodes.dom().contains(z) && 0 <= j
                < nodes[z].children@.len() && #[trigger] nodes[z].children@[j] == m;
        lemma_parent_below(nodes, rank, y, m);
        let (w, i) = choose|w: ElementIdx, i: int|
            in_subtree(kids, rank, y, w) && nodes.dom().contains(w) && 0 <= i
                < nodes[w].children@.len() && #[trigger] nodes[w].children@[i] == m;
        assert(nodes[z].children@[j] == nodes[w].children@[i]);
        assert(z == w);
        lemma_subtree_rank(nodes, rank, x, z);
        assert(rank[m] < rank[z]);
        lemma_comparable(nodes, rank, x, y, z);
    }
}

/// In a forest, the first `k` children of a node are disjoint trees.
pub proof fn lemma_forest_disjoint(nodes: NodeMap, rank: RankMap, id: ElementIdx, k: nat)
    requires
        ranked(nodes, rank),
        forest(nodes),
        nodes.dom().contains(id),
        k <= nodes[id].children@.len(),
    ensures
        disjoint_trees(kids_of(nodes), rank, nodes[id].children@, k, rank[id]),
    decreases rank[id], k,
{
    if k > 0 {
        let kids = kids_of(nodes);
        let cs = nodes[id].children@;
        let prev = (k - 1) as nat;
        let c = cs[k - 1];
        lemma_forest_disjoint(nodes, rank, id, prev);
        assert(nodes[id].children@[k - 1] == c);
        lemma_forest_is_tree(nodes, rank, c);
        assert forall|m: ElementIdx| #[trigger] in_subtree(kids, rank, c, m) implies !in_children(
            kids,
            rank,
            cs,
            prev,
            rank[id],
            m,
        ) by {
            lemma_in_children(kids, rank, cs, prev, rank[id], m);
            if in_children(kids, rank, cs, prev, rank[id], m) {
                let i = choose|i: int|
                    0 <= i < prev && rank[cs[i]] < rank[id] && in_subtree(
                        kids,
                        rank,
                        #[trigger] cs[i],
                        m,
                    );
                let d = cs[i];
                assert(nodes[id].children@[i] == d);
                assert(d != c);
                lemma_comparable(nodes, rank, c, d, m);
                let (low, high) = if in_subtree(kids, rank, c, d) {
                    (d, c)
                } else {
                    (c, d)
                };
                lemma_parent_below(nodes, rank, high, low);
                let (z, j) = choose|z: ElementIdx, j: int|
                    in_subtree(kids, rank, high, z) && nodes.dom().contains(z) && 0 <= j
                        < nodes[z].children@.len() && #[trigger] nodes[z].children@[j] == low;
                assert(nodes[id].children@[i] == d && nodes[id].children@[k - 1] == c);
                assert(z == id);
                lemma_subtree_rank(nodes, rank, high, id);
            }
        }
    }
}

/// In a forest, what lies below a node is a tree.
pub proof fn lemma_forest_is_tree(nodes: NodeMap, rank: RankMap, id: ElementIdx)
    requires
        ranked(nodes, rank),
        forest(nodes),
        nodes.dom().contains(id),
    ensures
        is_tree(kids_of(nodes), rank, id),
    decreases rank[id], nodes[id].children@.len() + 1,
{
    lemma_forest_disjoint(nodes, rank, id, nodes[id].children@.len());
    assert(kids_of(nodes)[id] == nodes[id].children@);
}

/// Maps of the same shape are forests together.
pub proof fn lemma_same_shape_forest(a: NodeMap, b: NodeMap)
    requires
        same_shape(a, b),
        forest(a),
    ensures
        forest(b),
{
    assert forall|x: ElementIdx, i: int, y: ElementIdx, j: int|
        b.dom().contains(x) && b.dom().contains(y) && 0 <= i < b[x].children@.len() && 0 <= j
            < b[y].children@.len() && #[trigger] b[x].children@[i]
            == #[trigger] b[y].children@[j] implies x == y && i == j by {
        assert(a[x].children == b[x].children);
        assert(a[y].children == b[y].children);
        assert(a[x].children@[i] == a[y].children@[j]);
    }
}

} // verus!
