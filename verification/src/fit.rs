//! The fit-sizing pass: bottom-up, every node gets its base size from its own
//! policy and from the sizes its children have been given.

use crate::axis::AxisSizes;
use crate::geometry::{cap16, content_area, inner_area, Direction, Vec2};
use crate::policy::{LayoutParams, Size};
use crate::store::{
    elements_index_mut, lemma_resize_same_shape, lemma_resize_step, lemma_same_shape_ranked,
    lemma_same_shape_trans, ranked, same_shape, share_children, ElementCtx, ElementIdx, NodeMap,
    RankMap, TuiElement,
};
use crate::tree::{
    disjoint_trees, in_children, in_subtree, is_tree, kids_of, lemma_in_children,
    lemma_not_below_children, lemma_same_shape_kids, lemma_subtree_child, lemma_subtree_rank,
};
use vstd::prelude::*;

verus! {

/// The size a node starts the pass with: its fixed dimensions as declared,
/// the others as they were left.
pub open spec fn declared_size(node: TuiElement) -> Vec2 {
    Vec2 {
        x: match node.layout_params.width {
            Size::Fixed(w) => w,
            _ => node.size.x,
        },
        y: match node.layout_params.height {
            Size::Fixed(h) => h,
            _ => node.size.y,
        },
    }
}

/// A child's size under a parent with parameters `parent` and content area
/// `ceiling`: each dimension in which the parent does not fit its children
/// is held down to the ceiling.
pub open spec fn clamp_child(size: Vec2, parent: LayoutParams, ceiling: Vec2) -> Vec2 {
    Vec2 {
        x: if parent.width.clamps() && size.x > ceiling.x {
            ceiling.x
        } else {
            size.x
        },
        y: if parent.height.clamps() && size.y > ceiling.y {
            ceiling.y
        } else {
            size.y
        },
    }
}

/// The exact total of the gaps between `count` children.
pub open spec fn gaps(gap: u16, count: nat) -> int {
    if count == 0 {
        0
    } else {
        gap * (count - 1)
    }
}

/// What `count` children with the accumulated size `acc` need of their
/// parent: their sizes, its padding and the gaps between them.
pub open spec fn content_size(acc: AxisSizes, params: LayoutParams, count: nat) -> Vec2 {
    let padded = acc.padded(params.padding, params.direction);
    AxisSizes {
        main_axis: cap16(padded.main_axis + gaps(params.gap, count)),
        cross_axis: padded.cross_axis,
    }.vec(params.direction)
}

/// The size a node ends the pass with: fixed dimensions stay, the others
/// take what the content needs.
pub open spec fn resolved_size(current: Vec2, params: LayoutParams, content: Vec2) -> Vec2 {
    Vec2 {
        x: if params.width is Fixed {
            current.x
        } else {
            content.x
        },
        y: if params.height is Fixed {
            current.y
        } else {
            content.y
        },
    }
}

/// The node records after the fit-sizing pass over the subtree of `id`.
pub open spec fn fit_sizes(nodes: NodeMap, rank: RankMap, id: ElementIdx) -> NodeMap
    decreases rank[id], 1nat, 0nat,
{
    let node = nodes[id];
    let size = declared_size(node);
    let started = nodes.insert(id, node.sized(size));
    let ceiling = inner_area(size, node.layout_params.padding);
    let (after, acc) = fit_children(
        started,
        rank,
        node.children@,
        node.children@.len(),
        rank[id],
        node.layout_params,
        ceiling,
    );
    let content = content_size(acc, node.layout_params, node.children@.len());
    after.insert(id, after[id].sized(resolved_size(after[id].size, node.layout_params, content)))
}

/// The node records after the first `k` children in `cs` have been sized and
/// held down to `ceiling`, one after the other, together with their
/// accumulated size. `bound` is the parent's number.
pub open spec fn fit_children(
    nodes: NodeMap,
    rank: RankMap,
    cs: Seq<ElementIdx>,
    k: nat,
    bound: nat,
    parent: LayoutParams,
    ceiling: Vec2,
) -> (NodeMap, AxisSizes)
    decreases bound, 0nat, k,
{
    if k == 0 {
        (nodes, AxisSizes { main_axis: 0, cross_axis: 0 })
    } else {
        let (before, acc) = fit_children(nodes, rank, cs, (k - 1) as nat, bound, parent, ceiling);
        let c = cs[k - 1];
        let fitted = if rank[c] < bound {
            fit_sizes(before, rank, c)
        } else {
            before
        };
        let size = clamp_child(fitted[c].size, parent, ceiling);
        (fitted.insert(c, fitted[c].sized(size)), acc.increased(size, parent.direction))
    }
}

/// The fit-sizing pass over the subtree of `id` keeps every node's shape and
/// position, and changes no node outside the subtree.
pub proof fn lemma_fit_frame(nodes: NodeMap, rank: RankMap, id: ElementIdx)
    requires
        ranked(nodes, rank),
        nodes.dom().contains(id),
    ensures
        same_shape(nodes, fit_sizes(nodes, rank, id)),
        forall|m: ElementIdx|
            !in_subtree(kids_of(nodes), rank, id, m) ==> #[trigger] fit_sizes(nodes, rank, id)[m]
                == nodes[m],
        forall|m: ElementIdx|
            nodes.dom().contains(m) ==> (#[trigger] fit_sizes(nodes, rank, id)[m]).position
                == nodes[m].position,
    decreases rank[id], 1nat, 0nat,
{
    let node = nodes[id];
    let size = declared_size(node);
    let started = nodes.insert(id, node.sized(size));
    let ceiling = inner_area(size, node.layout_params.padding);
    let cs = node.children@;
    lemma_resize_same_shape(nodes, id, node.sized(size));
    lemma_same_shape_ranked(nodes, started, rank);
    lemma_same_shape_kids(nodes, started);
    assert forall|j: int| 0 <= j < cs.len() implies started.dom().contains(#[trigger] cs[j])
        && rank[cs[j]] < rank[id] by {
        assert(nodes[id].children@[j] == cs[j]);
    }
    lemma_fit_children_frame(started, rank, cs, cs.len(), rank[id], node.layout_params, ceiling);
    let (after, acc) = fit_children(
        started,
        rank,
        cs,
        cs.len(),
        rank[id],
        node.layout_params,
        ceiling,
    );
    let content = content_size(acc, node.layout_params, cs.len());
    let last = after[id].sized(resolved_size(after[id].size, node.layout_params, content));
    lemma_same_shape_trans(nodes, started, after);
    lemma_resize_step(nodes, after, id, last);
    assert(kids_of(nodes)[id] == cs);
}

/// As [`lemma_fit_frame`], for the first `k` children in `cs`.
pub proof fn lemma_fit_children_frame(
    nodes: NodeMap,
    rank: RankMap,
    cs: Seq<ElementIdx>,
    k: nat,
    bound: nat,
    parent: LayoutParams,
    ceiling: Vec2,
)
    requires
        ranked(nodes, rank),
        k <= cs.len(),
        forall|j: int| 0 <= j < k ==> nodes.dom().contains(#[trigger] cs[j]) && rank[cs[j]] < bound,
    ensures
        same_shape(nodes, fit_children(nodes, rank, cs, k, bound, parent, ceiling).0),
        forall|m: ElementIdx|
            !in_children(kids_of(nodes), rank, cs, k, bound, m) ==> #[trigger] fit_children(
                nodes,
                rank,
                cs,
                k,
                bound,
                parent,
                ceiling,
            ).0[m] == nodes[m],
        forall|m: ElementIdx|
            nodes.dom().contains(m) ==> (#[trigger] fit_children(
                nodes,
                rank,
                cs,
                k,
                bound,
                parent,
                ceiling,
            ).0[m]).position == nodes[m].position,
    decreases bound, 0nat, k,
{
    if k > 0 {
        lemma_fit_children_frame(nodes, rank, cs, (k - 1) as nat, bound, parent, ceiling);
        let (before, acc) = fit_children(nodes, rank, cs, (k - 1) as nat, bound, parent, ceiling);
        let c = cs[k - 1];
        lemma_same_shape_ranked(nodes, before, rank);
        lemma_same_shape_kids(nodes, before);
        lemma_fit_frame(before, rank, c);
        let fitted = fit_sizes(before, rank, c);
        lemma_same_shape_trans(nodes, before, fitted);
        let size = clamp_child(fitted[c].size, parent, ceiling);
        lemma_resize_step(nodes, fitted, c, fitted[c].sized(size));
        let result = fitted.insert(c, fitted[c].sized(size));
        assert(result == fit_children(nodes, rank, cs, k, bound, parent, ceiling).0);
        assert forall|m: ElementIdx|
            !in_children(kids_of(nodes), rank, cs, k, bound, m) implies #[trigger] result[m]
            == nodes[m] by {
            assert(!in_subtree(kids_of(nodes), rank, c, m));
            assert(m != c);
            assert(fitted[m] == before[m]);
        }
        assert forall|m: ElementIdx| nodes.dom().contains(m) implies (#[trigger] result[m]).position
            == nodes[m].position by {
            assert(fitted[m].position == before[m].position);
        }
    }
}

/// What the first `k` children in `cs` add up to, with the sizes they have
/// in `nodes`: the sum along `dir`, the largest across it.
pub open spec fn children_extent(
    nodes: NodeMap,
    cs: Seq<ElementIdx>,
    k: nat,
    dir: Direction,
) -> AxisSizes
    decreases k,
{
    if k == 0 {
        AxisSizes { main_axis: 0, cross_axis: 0 }
    } else {
        children_extent(nodes, cs, (k - 1) as nat, dir).increased(nodes[cs[k - 1]].size, dir)
    }
}

/// The size the pass gives `q` on its own account, before the parent of
/// `q` holds it down: fixed dimensions as declared in `before`, the others
/// as large as the children of `q`, with the sizes they have in `after`,
/// its padding and its gaps need.
pub open spec fn own_fit_size(before: NodeMap, after: NodeMap, q: ElementIdx) -> Vec2 {
    let node = before[q];
    let cs = node.children@;
    resolved_size(
        declared_size(node),
        node.layout_params,
        content_size(
            children_extent(after, cs, cs.len(), node.layout_params.direction),
            node.layout_params,
            cs.len(),
        ),
    )
}

/// Every child of `p` has, in `after`, the size of its own account, held
/// down to the content area of `p` in the dimensions that `p` does not fit
/// to its children. The content area is that of the size `p` starts the
/// pass with.
pub open spec fn held_by(before: NodeMap, after: NodeMap, p: ElementIdx) -> bool {
    let node = before[p];
    let ceiling = inner_area(declared_size(node), node.layout_params.padding);
    forall|j: int|
        0 <= j < node.children@.len() ==> after[#[trigger] node.children@[j]].size == clamp_child(
            own_fit_size(before, after, node.children@[j]),
            node.layout_params,
            ceiling,
        )
}

/// Children of the same sizes add up to the same.
pub proof fn lemma_extent_same(
    a: NodeMap,
    b: NodeMap,
    cs: Seq<ElementIdx>,
    k: nat,
    dir: Direction,
)
    requires
        k <= cs.len(),
        forall|j: int| 0 <= j < k ==> a[#[trigger] cs[j]].size == b[cs[j]].size,
    ensures
        children_extent(a, cs, k, dir) == children_extent(b, cs, k, dir),
    decreases k,
{
    if k > 0 {
        lemma_extent_same(a, b, cs, (k - 1) as nat, dir);
    }
}

/// The size of a node's own account is the same wherever the node is the
/// same record and its children have the same sizes.
pub proof fn lemma_own_fit_same(
    before: NodeMap,
    after: NodeMap,
    before2: NodeMap,
    after2: NodeMap,
    q: ElementIdx,
)
    requires
        before[q] == before2[q],
        forall|i: int|
            0 <= i < before[q].children@.len() ==> after[#[trigger] before[q].children@[i]].size
                == after2[before[q].children@[i]].size,
    ensures
        own_fit_size(before, after, q) == own_fit_size(before2, after2, q),
{
    let cs = before[q].children@;
    lemma_extent_same(after, after2, cs, cs.len(), before[q].layout_params.direction);
}

/// [`held_by`] carries over to arenas that hold the same records for the
/// node and its children, and the same sizes for the children and their
/// children.
pub proof fn lemma_held_by_same(
    before: NodeMap,
    after: NodeMap,
    before2: NodeMap,
    after2: NodeMap,
    p: ElementIdx,
)
    requires
        held_by(before, after, p),
        before[p] == before2[p],
        forall|j: int|
            0 <= j < before[p].children@.len() ==> {
                let c = #[trigger] before[p].children@[j];
                &&& before[c] == before2[c]
                &&& after[c].size == after2[c].size
                &&& forall|i: int|
                    0 <= i < before[c].children@.len() ==> after[#[trigger] before[c].children@[i]].size
                        == after2[before[c].children@[i]].size
            },
    ensures
        held_by(before2, after2, p),
{
    let node = before[p];
    let ceiling = inner_area(declared_size(node), node.layout_params.padding);
    assert forall|j: int| 0 <= j < node.children@.len() implies after2[
    #[trigger] node.children@[j]].size == clamp_child(
        own_fit_size(before2, after2, node.children@[j]),
        node.layout_params,
        ceiling,
    ) by {
        let c = node.children@[j];
        lemma_own_fit_same(before, after, before2, after2, c);
    }
}

/// In a tree, the fit-sizing pass leaves the node it starts from with the
/// size of its own account, and every child of every node of the subtree
/// with the size of its own account held down by its parent.
pub proof fn lemma_fit_law(nodes: NodeMap, rank: RankMap, id: ElementIdx)
    requires
        ranked(nodes, rank),
        nodes.dom().contains(id),
        is_tree(kids_of(nodes), rank, id),
    ensures
        fit_sizes(nodes, rank, id)[id].size == own_fit_size(
            nodes,
            fit_sizes(nodes, rank, id),
            id,
        ),
        forall|p: ElementIdx| #[trigger]
            in_subtree(kids_of(nodes), rank, id, p) ==> held_by(
                nodes,
                fit_sizes(nodes, rank, id),
                p,
            ),
    decreases rank[id], 1nat, 0nat,
{
    let kids = kids_of(nodes);
    let node = nodes[id];
    let params = node.layout_params;
    let size = declared_size(node);
    let started = nodes.insert(id, node.sized(size));
    let ceiling = inner_area(size, params.padding);
    let cs = node.children@;
    let n = cs.len();
    lemma_resize_same_shape(nodes, id, node.sized(size));
    lemma_same_shape_ranked(nodes, started, rank);
    lemma_same_shape_kids(nodes, started);
    assert(kids[id] == cs);
    assert forall|j: int| 0 <= j < n implies started.dom().contains(#[trigger] cs[j])
        && rank[cs[j]] < rank[id] by {
        assert(nodes[id].children@[j] == cs[j]);
    }
    lemma_fit_children_law(started, rank, cs, n, rank[id], params, ceiling);
    lemma_fit_children_frame(started, rank, cs, n, rank[id], params, ceiling);
    lemma_not_below_children(nodes, rank, id, n);
    let (after, acc) = fit_children(started, rank, cs, n, rank[id], params, ceiling);
    let content = content_size(acc, params, n);
    let result = after.insert(id, after[id].sized(resolved_size(after[id].size, params, content)));
    assert(result == fit_sizes(nodes, rank, id));
    assert(after[id] == started[id]);
    // Every node below `id` is another node than `id`, and the same record
    // in `started` as in `nodes`, in `result` as in `after`.
    assert forall|j: int| 0 <= j < n implies result[#[trigger] cs[j]].size
        == after[cs[j]].size by {
        assert(nodes[id].children@[j] == cs[j]);
    }
    lemma_extent_same(result, after, cs, n, params.direction);
    assert forall|p: ElementIdx| #[trigger] in_subtree(kids, rank, id, p) implies held_by(
        nodes,
        result,
        p,
    ) by {
        lemma_subtree_rank(nodes, rank, id, p);
        assert forall|j: int| 0 <= j < nodes[p].children@.len() implies {
            let c = #[trigger] nodes[p].children@[j];
            &&& started[c] == nodes[c]
            &&& after[c].size == result[c].size
            &&& forall|i: int|
                0 <= i < nodes[c].children@.len() ==> after[#[trigger] nodes[c].children@[i]].size
                    == result[nodes[c].children@[i]].size
        } by {
            let c = nodes[p].children@[j];
            lemma_subtree_child(nodes, rank, id, p, j);
            assert forall|i: int| 0 <= i < nodes[c].children@.len() implies after[
            #[trigger] nodes[c].children@[i]].size == result[nodes[c].children@[i]].size by {
                lemma_subtree_child(nodes, rank, id, c, i);
            }
        }
        if p == id {
            assert(held_by(started, after, id)) by {
                assert forall|j: int| 0 <= j < n implies after[#[trigger] cs[j]].size
                    == clamp_child(own_fit_size(started, after, cs[j]), params, ceiling) by {}
                assert(started[id].children@ == cs);
                assert(declared_size(started[id]) == size);
            }
            assert(started[id].children == nodes[id].children);
            lemma_held_by_same(started, after, nodes.insert(id, started[id]), result, id);
            assert(held_by(nodes, result, id)) by {
                let mid = nodes.insert(id, started[id]);
                assert(declared_size(mid[id]) == declared_size(nodes[id]));
                assert forall|j: int| 0 <= j < n implies result[#[trigger] cs[j]].size
                    == clamp_child(own_fit_size(nodes, result, cs[j]), params, ceiling) by {
                    assert(nodes[id].children@[j] == cs[j]);
                    assert(mid[cs[j]] == nodes[cs[j]]);
                    lemma_own_fit_same(mid, result, nodes, result, cs[j]);
                }
            }
        } else {
            assert(in_children(kids, rank, cs, n, rank[id], p));
            assert(started[p] == nodes[p]);
            lemma_held_by_same(started, after, nodes, result, p);
        }
    }
}

/// As [`lemma_fit_law`], for the first `k` children in `cs`, which are
/// disjoint trees: what the pass accumulates is what those children add up
/// to, and each of them has the size of its own account held down to
/// `ceiling`.
pub proof fn lemma_fit_children_law(
    a: NodeMap,
    rank: RankMap,
    cs: Seq<ElementIdx>,
    k: nat,
    bound: nat,
    parent: LayoutParams,
    ceiling: Vec2,
)
    requires
        ranked(a, rank),
        k <= cs.len(),
        forall|j: int| 0 <= j < k ==> a.dom().contains(#[trigger] cs[j]) && rank[cs[j]] < bound,
        disjoint_trees(kids_of(a), rank, cs, k, bound),
    ensures
        fit_children(a, rank, cs, k, bound, parent, ceiling).1 == children_extent(
            fit_children(a, rank, cs, k, bound, parent, ceiling).0,
            cs,
            k,
            parent.direction,
        ),
        forall|j: int|
            0 <= j < k ==> fit_children(a, rank, cs, k, bound, parent, ceiling).0[
            #[trigger] cs[j]].size == clamp_child(
                own_fit_size(
                    a,
                    fit_children(a, rank, cs, k, bound, parent, ceiling).0,
                    cs[j],
                ),
                parent,
                ceiling,
            ),
        forall|p: ElementIdx| #[trigger]
            in_children(kids_of(a), rank, cs, k, bound, p) ==> held_by(
                a,
                fit_children(a, rank, cs, k, bound, parent, ceiling).0,
                p,
            ),
    decreases bound, 0nat, k,
{
    if k > 0 {
        let kids = kids_of(a);
        let prev = (k - 1) as nat;
        lemma_fit_children_law(a, rank, cs, prev, bound, parent, ceiling);
        lemma_fit_children_frame(a, rank, cs, prev, bound, parent, ceiling);
        let (before, acc) = fit_children(a, rank, cs, prev, bound, parent, ceiling);
        let c = cs[k - 1];
        lemma_same_shape_ranked(a, before, rank);
        lemma_same_shape_kids(a, before);
        lemma_fit_law(before, rank, c);
        lemma_fit_frame(before, rank, c);
        let fitted = fit_sizes(before, rank, c);
        let size = clamp_child(fitted[c].size, parent, ceiling);
        let result = fitted.insert(c, fitted[c].sized(size));
        assert(result == fit_children(a, rank, cs, k, bound, parent, ceiling).0);
        assert(in_subtree(kids, rank, c, c));
        // What lies below `c` was untouched before, and what lies below the
        // earlier children is untouched now.
        assert forall|m: ElementIdx| #[trigger] in_subtree(kids, rank, c, m) implies before[m]
            == a[m] && (m != c ==> result[m] == fitted[m]) by {}
        assert forall|m: ElementIdx| #[trigger]
            in_children(kids, rank, cs, prev, bound, m) implies result[m] == before[m] by {
            assert(!in_subtree(kids, rank, c, m));
            assert(fitted[m] == before[m]);
        }
        assert forall|j: int| 0 <= j < prev implies in_children(
            kids,
            rank,
            cs,
            prev,
            bound,
            #[trigger] cs[j],
        ) by {
            lemma_in_children(kids, rank, cs, prev, bound, cs[j]);
            assert(in_subtree(kids, rank, cs[j], cs[j]));
        }
        lemma_extent_same(result, before, cs, prev, parent.direction);
        assert forall|j: int| 0 <= j < k implies result[#[trigger] cs[j]].size == clamp_child(
            own_fit_size(a, result, cs[j]),
            parent,
            ceiling,
        ) by {
            let q = cs[j];
            if j == k - 1 {
                assert forall|i: int| 0 <= i < before[c].children@.len() implies fitted[
                #[trigger] before[c].children@[i]].size == result[before[c].children@[i]].size by {
                    lemma_subtree_child(before, rank, c, c, i);
                }
                lemma_own_fit_same(before, fitted, a, result, c);
            } else {
                assert(in_children(kids, rank, cs, prev, bound, q));
                assert forall|i: int| 0 <= i < a[q].children@.len() implies before[
                #[trigger] a[q].children@[i]].size == result[a[q].children@[i]].size by {
                    lemma_subtree_child(a, rank, q, q, i);
                    lemma_in_children(kids, rank, cs, prev, bound, a[q].children@[i]);
                }
                lemma_own_fit_same(a, before, a, result, q);
            }
        }
        assert forall|p: ElementIdx| #[trigger]
            in_children(kids, rank, cs, k, bound, p) implies held_by(a, result, p) by {
            if in_subtree(kids, rank, c, p) {
                lemma_subtree_rank(before, rank, c, p);
                assert forall|j: int| 0 <= j < before[p].children@.len() implies {
                    let q = #[trigger] before[p].children@[j];
                    &&& before[q] == a[q]
                    &&& fitted[q].size == result[q].size
                    &&& forall|i: int|
                        0 <= i < before[q].children@.len() ==> fitted[
                        #[trigger] before[q].children@[i]].size
                            == result[before[q].children@[i]].size
                } by {
                    let q = before[p].children@[j];
                    lemma_subtree_child(before, rank, c, p, j);
                    assert forall|i: int| 0 <= i < before[q].children@.len() implies fitted[
                    #[trigger] before[q].children@[i]].size
                        == result[before[q].children@[i]].size by {
                        lemma_subtree_child(before, rank, c, q, i);
                    }
                }
                lemma_held_by_same(before, fitted, a, result, p);
            } else {
                assert(in_children(kids, rank, cs, prev, bound, p));
                lemma_in_children(kids, rank, cs, prev, bound, p);
                let t = choose|t: int|
                    0 <= t < prev && rank[cs[t]] < bound && in_subtree(
                        kids,
                        rank,
                        #[trigger] cs[t],
                        p,
                    );
                lemma_subtree_rank(a, rank, cs[t], p);
                assert forall|j: int| 0 <= j < a[p].children@.len() implies {
                    let q = #[trigger] a[p].children@[j];
                    &&& a[q] == a[q]
                    &&& before[q].size == result[q].size
                    &&& forall|i: int|
                        0 <= i < a[q].children@.len() ==> before[#[trigger] a[q].children@[i]].size
                            == result[a[q].children@[i]].size
                } by {
                    let q = a[p].children@[j];
                    lemma_subtree_child(a, rank, cs[t], p, j);
                    lemma_in_children(kids, rank, cs, prev, bound, q);
                    assert forall|i: int| 0 <= i < a[q].children@.len() implies before[
                    #[trigger] a[q].children@[i]].size == result[a[q].children@[i]].size by {
                        lemma_subtree_child(a, rank, cs[t], q, i);
                        lemma_in_children(kids, rank, cs, prev, bound, a[q].children@[i]);
                    }
                }
                lemma_held_by_same(a, before, a, result, p);
            }
        }
    }
}

impl ElementCtx {
    /// Sizes the subtree of `element` bottom-up. A fixed dimension takes its
    /// declared value; every other dimension takes what the node's children
    /// need, after each child has been held down to the node's content area
    /// in the dimensions that the node does not fit to them.
    pub fn calculate_fit_sizes(&mut self, element: ElementIdx)
        requires
            old(self).wf(),
            old(self).contains(element),
        ensures
            final(self).nodes() == fit_sizes(old(self).nodes(), old(self).ranks(), element),
            final(self).resized_from(*old(self)),
            final(self).wf(),
        decreases old(self).ranks()[element],
    {
        let el = elements_index_mut(&mut self.elements, element);
        match el.layout_params.width {
            Size::Fixed(w) => {
                el.size.x = w;
            },
            _ => {},
        }
        match el.layout_params.height {
            Size::Fixed(h) => {
                el.size.y = h;
            },
            _ => {},
        }
        let children = share_children(&el.children);
        let params = el.layout_params;
        let ceiling = content_area(el.size, params.padding);
        let ghost started = self.nodes();
        let ghost rank = self.ranks();
        proof {
            lemma_resize_same_shape(old(self).nodes(), element, started[element]);
            lemma_same_shape_ranked(old(self).nodes(), started, rank);
        }
        let mut acc = AxisSizes { main_axis: 0, cross_axis: 0 };
        let mut i: usize = 0;
        while i < children.len()
            invariant
                i <= children.len(),
                old(self).wf(),
                old(self).contains(element),
                children@ == old(self).nodes()[element].children@,
                rank == old(self).ranks(),
                self.ranks() == rank,
                self.widget_handles() == old(self).widget_handles(),
                same_shape(old(self).nodes(), self.nodes()),
                self.wf(),
                self.nodes() == fit_children(
                    started,
                    rank,
                    children@,
                    i as nat,
                    rank[element],
                    params,
                    ceiling,
                ).0,
                acc == fit_children(
                    started,
                    rank,
                    children@,
                    i as nat,
                    rank[element],
                    params,
                    ceiling,
                ).1,
            decreases children.len() - i,
        {
            let child = children[i];
            assert(old(self).nodes()[element].children@[i as int] == child);
            assert(self.contains(child) && rank[child] < rank[element]);
            self.calculate_fit_sizes(child);
            let ghost fitted = self.nodes();
            let c = elements_index_mut(&mut self.elements, child);
            if params.width.should_clamp() && c.size.x > ceiling.x {
                c.size.x = ceiling.x;
            }
            if params.height.should_clamp() && c.size.y > ceiling.y {
                c.size.y = ceiling.y;
            }
            acc = acc.increase(c.size, params.direction);
            i += 1;
            proof {
                lemma_resize_same_shape(fitted, child, self.nodes()[child]);
                lemma_same_shape_trans(old(self).nodes(), fitted, self.nodes());
                lemma_same_shape_ranked(old(self).nodes(), self.nodes(), rank);
            }
        }
        let ghost after = self.nodes();
        let count = children.len();
        acc = acc.pad(params.padding, params.direction);
        let gap_total = gap_total(params.gap, count);
        acc.main_axis = acc.main_axis.saturating_add(gap_total);
        let content = acc.to_u16vec2(params.direction);
        let el = elements_index_mut(&mut self.elements, element);
        match params.width {
            Size::Fixed(_) => {},
            _ => {
                el.size.x = content.x;
            },
        }
        match params.height {
            Size::Fixed(_) => {},
            _ => {
                el.size.y = content.y;
            },
        }
        proof {
            lemma_resize_same_shape(after, element, self.nodes()[element]);
            lemma_same_shape_trans(old(self).nodes(), after, self.nodes());
            lemma_same_shape_ranked(old(self).nodes(), self.nodes(), rank);
        }
    }
}

/// The gaps between `count` children, capped at the grid's largest length.
pub fn gap_total(gap: u16, count: usize) -> (total: u16)
    ensures
        total == cap16(gaps(gap, count as nat)),
{
    if count <= 1 || gap == 0 {
        assert(gaps(gap, count as nat) == 0) by (nonlinear_arith)
            requires
                count <= 1 || gap == 0,
        ;
        0
    } else if count - 1 > 0xffff {
        assert(gap * (count - 1) > 0xffff) by (nonlinear_arith)
            requires
                gap >= 1,
                count - 1 > 0xffff,
        ;
        0xffff
    } else {
        let between: u32 = (count - 1) as u32;
        assert(between * (gap as u32) <= 0xffff * 0xffff) by (nonlinear_arith)
            requires
                between <= 0xffff,
                gap <= 0xffff,
        ;
        let total: u32 = between * (gap as u32);
        assert(total == gap * (count - 1)) by (nonlinear_arith)
            requires
                total == between * (gap as u32),
                between == count - 1,
        ;
        if total > 0xffff {
            0xffff
        } else {
            total as u16
        }
    }
}

} // verus!
