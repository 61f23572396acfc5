//! The position pass: pre-order, every child is placed behind its earlier
//! siblings inside its parent's padding.

use crate::axis::{increase_axis, main_of, with_main};
use crate::geometry::{cap16, glam_saturating_add, Direction, Padding, Vec2};
use crate::policy::LayoutParams;
use crate::store::{
    elements_index_mut, lemma_resize_step, lemma_resized_wf, lemma_same_shape_ranked,
    lemma_same_shape_trans, ranked, same_shape, share_children, ElementCtx, ElementIdx, NodeMap,
    RankMap,
};
use crate::tree::{
    disjoint_trees, in_children, in_subtree, is_tree, kids_of, lemma_in_children,
    lemma_not_below_children, lemma_same_shape_kids, lemma_subtree_child, lemma_subtree_rank,
};
use vstd::prelude::*;

verus! {

/// Where a child stands whose parent is at `origin` and whose earlier
/// siblings take up `offset` cells along `dir`: that far along the main
/// axis, and behind the parent's leading padding on both axes.
pub open spec fn child_position(origin: Vec2, offset: u16, padding: Padding, dir: Direction) -> Vec2 {
    with_main(origin, dir, cap16(main_of(origin, dir) + offset)).plus(
        Vec2 { x: padding.left, y: padding.top },
    )
}

/// The offset behind a child of size `size` that stands at `offset`: its
/// main-axis extent and one gap further.
pub open spec fn next_offset(offset: u16, size: Vec2, params: LayoutParams) -> u16 {
    cap16(cap16(offset + main_of(size, params.direction)) + params.gap)
}

/// The node records after the first `k` children in `cs` have been placed,
/// each followed by its own subtree, and the offset behind the last of them.
/// `origin` and `parent` are the parent's position and parameters, `bound`
/// its number.
pub open spec fn place_children(
    nodes: NodeMap,
    rank: RankMap,
    cs: Seq<ElementIdx>,
    k: nat,
    bound: nat,
    origin: Vec2,
    parent: LayoutParams,
) -> (NodeMap, u16)
    decreases bound, 0nat, k,
{
    if k == 0 {
        (nodes, 0u16)
    } else {
        let (before, offset) = place_children(
            nodes,
            rank,
            cs,
            (k - 1) as nat,
            bound,
            origin,
            parent,
        );
        let c = cs[k - 1];
        let position = child_position(origin, offset, parent.padding, parent.direction);
        let placed = before.insert(c, before[c].placed(position));
        let after = if rank[c] < bound {
            positions(placed, rank, c)
        } else {
            placed
        };
        (after, next_offset(offset, placed[c].size, parent))
    }
}

/// The node records after the position pass over the subtree of `id`. The
/// position of `id` itself is taken as it is.
pub open spec fn positions(nodes: NodeMap, rank: RankMap, id: ElementIdx) -> NodeMap
    decreases rank[id], 1nat, 0nat,
{
    let node = nodes[id];
    place_children(
        nodes,
        rank,
        node.children@,
        node.children@.len(),
        rank[id],
        node.position,
        node.layout_params,
    ).0
}

/// The position pass over the subtree of `id` keeps every node's shape and
/// size, changes no node outside the subtree, and leaves `id` itself as it
/// is.
pub proof fn lemma_positions_frame(nodes: NodeMap, rank: RankMap, id: ElementIdx)
    requires
        ranked(nodes, rank),
        nodes.dom().contains(id),
    ensures
        same_shape(nodes, positions(nodes, rank, id)),
        forall|m: ElementIdx|
            !in_subtree(kids_of(nodes), rank, id, m) ==> #[trigger] positions(nodes, rank, id)[m]
                == nodes[m],
        forall|m: ElementIdx|
            nodes.dom().contains(m) ==> (#[trigger] positions(nodes, rank, id)[m]).size
                == nodes[m].size,
        positions(nodes, rank, id)[id] == nodes[id],
    decreases rank[id], 1nat, 0nat,
{
    let node = nodes[id];
    let cs = node.children@;
    assert forall|j: int| 0 <= j < cs.len() implies nodes.dom().contains(#[trigger] cs[j])
        && rank[cs[j]] < rank[id] by {
        assert(nodes[id].children@[j] == cs[j]);
    }
    lemma_place_children_frame(
        nodes,
        rank,
        cs,
        cs.len(),
        rank[id],
        node.position,
        node.layout_params,
    );
    assert(kids_of(nodes)[id] == cs);
    lemma_not_below_children(nodes, rank, id, cs.len());
}

/// As [`lemma_positions_frame`], for the first `k` children in `cs`.
pub proof fn lemma_place_children_frame(
    nodes: NodeMap,
    rank: RankMap,
    cs: Seq<ElementIdx>,
    k: nat,
    bound: nat,
    origin: Vec2,
    parent: LayoutParams,
)
    requires
        ranked(nodes, rank),
        k <= cs.len(),
        forall|j: int| 0 <= j < k ==> nodes.dom().contains(#[trigger] cs[j]) && rank[cs[j]] < bound,
    ensures
        same_shape(nodes, place_children(nodes, rank, cs, k, bound, origin, parent).0),
        forall|m: ElementIdx|
            !in_children(kids_of(nodes), rank, cs, k, bound, m) ==> #[trigger] place_children(
                nodes,
                rank,
                cs,
                k,
                bound,
                origin,
                parent,
            ).0[m] == nodes[m],
        forall|m: ElementIdx|
            nodes.dom().contains(m) ==> (#[trigger] place_children(
                nodes,
                rank,
                cs,
                k,
                bound,
                origin,
                parent,
            ).0[m]).size == nodes[m].size,
    decreases bound, 0nat, k,
{
    if k > 0 {
        lemma_place_children_frame(nodes, rank, cs, (k - 1) as nat, bound, origin, parent);
        let (before, offset) = place_children(
            nodes,
            rank,
            cs,
            (k - 1) as nat,
            bound,
            origin,
            parent,
        );
        let c = cs[k - 1];
        let position = child_position(origin, offset, parent.padding, parent.direction);
        let placed = before.insert(c, before[c].placed(position));
        lemma_resize_step(nodes, before, c, before[c].placed(position));
        lemma_same_shape_ranked(nodes, placed, rank);
        lemma_same_shape_kids(nodes, placed);
        lemma_positions_frame(placed, rank, c);
        let result = positions(placed, rank, c);
        lemma_same_shape_trans(nodes, placed, result);
        assert(result == place_children(nodes, rank, cs, k, bound, origin, parent).0);
        assert forall|m: ElementIdx|
            !in_children(kids_of(nodes), rank, cs, k, bound, m) implies #[trigger] result[m]
            == nodes[m] by {
            assert(!in_subtree(kids_of(nodes), rank, c, m));
            assert(m != c);
            assert(result[m] == placed[m]);
        }
        assert forall|m: ElementIdx| nodes.dom().contains(m) implies (#[trigger] result[m]).size
            == nodes[m].size by {
            assert(result[m].size == placed[m].size);
            assert(before[m].size == nodes[m].size);
        }
    }
}

/// The offset at which the child at place `k` of `cs` stands: what its
/// earlier siblings and the gaps behind them take up.
pub open spec fn offset_before(
    nodes: NodeMap,
    cs: Seq<ElementIdx>,
    k: nat,
    parent: LayoutParams,
) -> u16
    decreases k,
{
    if k == 0 {
        0u16
    } else {
        next_offset(offset_before(nodes, cs, (k - 1) as nat, parent), nodes[cs[k - 1]].size, parent)
    }
}

/// Every child of `p` stands where `p`, its padding and its earlier
/// siblings put it.
pub open spec fn placed_by(nodes: NodeMap, p: ElementIdx) -> bool {
    let node = nodes[p];
    forall|j: int|
        0 <= j < node.children@.len() ==> nodes[#[trigger] node.children@[j]].position
            == child_position(
            node.position,
            offset_before(nodes, node.children@, j as nat, node.layout_params),
            node.layout_params.padding,
            node.layout_params.direction,
        )
}

/// Children of the same sizes stand at the same offsets.
pub proof fn lemma_offset_same(
    a: NodeMap,
    b: NodeMap,
    cs: Seq<ElementIdx>,
    k: nat,
    parent: LayoutParams,
)
    requires
        k <= cs.len(),
        forall|j: int| 0 <= j < k ==> a[#[trigger] cs[j]].size == b[cs[j]].size,
    ensures
        offset_before(a, cs, k, parent) == offset_before(b, cs, k, parent),
    decreases k,
{
    if k > 0 {
        lemma_offset_same(a, b, cs, (k - 1) as nat, parent);
    }
}

/// The offset that the pass carries along is the offset of the sizes it
/// found.
pub proof fn lemma_offset_carried(
    nodes: NodeMap,
    rank: RankMap,
    cs: Seq<ElementIdx>,
    k: nat,
    bound: nat,
    origin: Vec2,
    parent: LayoutParams,
)
    requires
        ranked(nodes, rank),
        k <= cs.len(),
        forall|j: int| 0 <= j < k ==> nodes.dom().contains(#[trigger] cs[j]) && rank[cs[j]] < bound,
    ensures
        place_children(nodes, rank, cs, k, bound, origin, parent).1 == offset_before(
            nodes,
            cs,
            k,
            parent,
        ),
    decreases k,
{
    if k > 0 {
        lemma_offset_carried(nodes, rank, cs, (k - 1) as nat, bound, origin, parent);
        lemma_place_children_frame(nodes, rank, cs, (k - 1) as nat, bound, origin, parent);
    }
}

/// Where a node and its children are the same records, the children stand
/// by the same rule.
pub proof fn lemma_placed_by_same(a: NodeMap, b: NodeMap, p: ElementIdx)
    requires
        a[p] == b[p],
        forall|j: int|
            0 <= j < a[p].children@.len() ==> a[#[trigger] a[p].children@[j]]
                == b[a[p].children@[j]],
        placed_by(a, p),
    ensures
        placed_by(b, p),
{
    let node = a[p];
    let cs = node.children@;
    assert forall|j: int| 0 <= j < cs.len() implies b[#[trigger] cs[j]].position
        == child_position(
        node.position,
        offset_before(b, cs, j as nat, node.layout_params),
        node.layout_params.padding,
        node.layout_params.direction,
    ) by {
        lemma_offset_same(a, b, cs, j as nat, node.layout_params);
    }
}

/// In a tree, the position pass leaves every child of every node of the
/// subtree where its parent, the parent's padding and its earlier
/// siblings put it.
pub proof fn lemma_positions_law(nodes: NodeMap, rank: RankMap, id: ElementIdx)
    requires
        ranked(nodes, rank),
        nodes.dom().contains(id),
        is_tree(kids_of(nodes), rank, id),
    ensures
        forall|p: ElementIdx| #[trigger]
            in_subtree(kids_of(nodes), rank, id, p) ==> placed_by(positions(nodes, rank, id), p),
    decreases rank[id], 1nat, 0nat,
{
    let kids = kids_of(nodes);
    let node = nodes[id];
    let cs = node.children@;
    let n = cs.len();
    assert(kids[id] == cs);
    assert forall|j: int| 0 <= j < n implies nodes.dom().contains(#[trigger] cs[j]) && rank[cs[j]]
        < rank[id] by {
        assert(nodes[id].children@[j] == cs[j]);
    }
    lemma_place_children_law(nodes, rank, cs, n, rank[id], node.position, node.layout_params);
    lemma_place_children_frame(nodes, rank, cs, n, rank[id], node.position, node.layout_params);
    lemma_positions_frame(nodes, rank, id);
    let result = positions(nodes, rank, id);
    assert forall|p: ElementIdx| #[trigger] in_subtree(kids, rank, id, p) implies placed_by(
        result,
        p,
    ) by {
        if p == id {
            assert forall|j: int| 0 <= j < n implies result[#[trigger] cs[j]].position
                == child_position(
                node.position,
                offset_before(result, cs, j as nat, node.layout_params),
                node.layout_params.padding,
                node.layout_params.direction,
            ) by {
                lemma_offset_same(nodes, result, cs, j as nat, node.layout_params);
            }
            assert(result[id] == nodes[id]);
        }
    }
}

/// [`placed_by`] carries over for a node below `top`, where nothing below
/// `top` differs.
pub proof fn lemma_placed_by_below(
    nodes: NodeMap,
    rank: RankMap,
    before: NodeMap,
    after: NodeMap,
    top: ElementIdx,
    p: ElementIdx,
)
    requires
        ranked(nodes, rank),
        same_shape(nodes, before),
        nodes.dom().contains(top),
        in_subtree(kids_of(nodes), rank, top, p),
        placed_by(before, p),
        forall|m: ElementIdx| #[trigger]
            in_subtree(kids_of(nodes), rank, top, m) ==> after[m] == before[m],
    ensures
        placed_by(after, p),
{
    lemma_subtree_rank(nodes, rank, top, p);
    assert(before[p].children == nodes[p].children);
    assert forall|j: int| 0 <= j < before[p].children@.len() implies before[
    #[trigger] before[p].children@[j]] == after[before[p].children@[j]] by {
        assert(nodes[p].children@[j] == before[p].children@[j]);
        lemma_subtree_child(nodes, rank, top, p, j);
    }
    lemma_placed_by_same(before, after, p);
}

/// As [`lemma_positions_law`], for the first `k` children in `cs`, which
/// are disjoint trees; the children themselves stand at their offsets.
pub proof fn lemma_place_children_law(
    nodes: NodeMap,
    rank: RankMap,
    cs: Seq<ElementIdx>,
    k: nat,
    bound: nat,
    origin: Vec2,
    parent: LayoutParams,
)
    requires
        ranked(nodes, rank),
        k <= cs.len(),
        forall|j: int| 0 <= j < k ==> nodes.dom().contains(#[trigger] cs[j]) && rank[cs[j]] < bound,
        disjoint_trees(kids_of(nodes), rank, cs, k, bound),
    ensures
        forall|j: int|
            0 <= j < k ==> place_children(
                nodes,
                rank,
                cs,
                k,
                bound,
                origin,
                parent,
            ).0[#[trigger] cs[j]].position == child_position(
                origin,
                offset_before(nodes, cs, j as nat, parent),
                parent.padding,
                parent.direction,
            ),
        forall|p: ElementIdx| #[trigger]
            in_children(kids_of(nodes), rank, cs, k, bound, p) ==> placed_by(
                place_children(nodes, rank, cs, k, bound, origin, parent).0,
                p,
            ),
    decreases bound, 0nat, k,
{
    if k > 0 {
        let kids = kids_of(nodes);
        let prev = (k - 1) as nat;
        lemma_place_children_law(nodes, rank, cs, prev, bound, origin, parent);
        lemma_place_children_frame(nodes, rank, cs, prev, bound, origin, parent);
        lemma_offset_carried(nodes, rank, cs, prev, bound, origin, parent);
        let (before, offset) = place_children(nodes, rank, cs, prev, bound, origin, parent);
        let c = cs[k - 1];
        let position = child_position(origin, offset, parent.padding, parent.direction);
        let placed = before.insert(c, before[c].placed(position));
        lemma_resize_step(nodes, before, c, before[c].placed(position));
        lemma_same_shape_ranked(nodes, before, rank);
        lemma_same_shape_kids(nodes, before);
        lemma_same_shape_ranked(nodes, placed, rank);
        lemma_same_shape_kids(nodes, placed);
        lemma_positions_law(placed, rank, c);
        lemma_positions_frame(placed, rank, c);
        let result = positions(placed, rank, c);
        assert(result == place_children(nodes, rank, cs, k, bound, origin, parent).0);
        assert(in_subtree(kids, rank, c, c));
        // What lies below the earlier children is untouched by this step.
        assert forall|m: ElementIdx| #[trigger]
            in_children(kids, rank, cs, prev, bound, m) implies result[m] == before[m] by {
            assert(!in_subtree(kids, rank, c, m));
            assert(result[m] == placed[m]);
        }
        assert forall|j: int| 0 <= j < k implies result[#[trigger] cs[j]].position
            == child_position(
            origin,
            offset_before(nodes, cs, j as nat, parent),
            parent.padding,
            parent.direction,
        ) by {
            if j < k - 1 {
                lemma_in_children(kids, rank, cs, prev, bound, cs[j]);
                assert(in_subtree(kids, rank, cs[j], cs[j]));
                assert(in_children(kids, rank, cs, prev, bound, cs[j]));
            }
        }
        assert forall|p: ElementIdx| #[trigger]
            in_children(kids, rank, cs, k, bound, p) implies placed_by(result, p) by {
            if !in_subtree(kids, rank, c, p) {
                assert(in_children(kids, rank, cs, prev, bound, p));
                lemma_in_children(kids, rank, cs, prev, bound, p);
                let i = choose|i: int|
                    0 <= i < prev && rank[cs[i]] < bound && in_subtree(
                        kids,
                        rank,
                        #[trigger] cs[i],
                        p,
                    );
                assert forall|m: ElementIdx| #[trigger]
                    in_subtree(kids, rank, cs[i], m) implies result[m] == before[m] by {
                    lemma_in_children(kids, rank, cs, prev, bound, m);
                    assert(in_children(kids, rank, cs, prev, bound, m));
                }
                lemma_placed_by_below(nodes, rank, before, result, cs[i], p);
            }
        }
    }
}

impl ElementCtx {
    /// Places the descendants of `root`, whose own position stands. The
    /// children of a node follow each other along its direction, separated
    /// by its gap, and all start behind its leading padding.
    pub fn calculate_positions(&mut self, root: ElementIdx)
        requires
            old(self).wf(),
            old(self).contains(root),
        ensures
            final(self).nodes() == positions(old(self).nodes(), old(self).ranks(), root),
            final(self).resized_from(*old(self)),
            final(self).wf(),
        decreases old(self).ranks()[root],
    {
        let el = self.node(root);
        let children = share_children(&el.children);
        let params = el.layout_params;
        let origin = el.position;
        let dir = params.direction;
        let ghost start = self.nodes();
        let ghost rank = self.ranks();
        let ghost cs = children@;
        let count = children.len();
        let mut axis_start: u16 = 0;
        let mut i: usize = 0;
        while i < count
            invariant
                i <= count,
                count == cs.len(),
                cs == children@,
                old(self).wf(),
                old(self).contains(root),
                start == old(self).nodes(),
                cs == start[root].children@,
                rank == old(self).ranks(),
                dir == params.direction,
                self.resized_from(*old(self)),
                self.wf(),
                self.nodes() == place_children(
                    start,
                    rank,
                    cs,
                    i as nat,
                    rank[root],
                    origin,
                    params,
                ).0,
                axis_start == place_children(
                    start,
                    rank,
                    cs,
                    i as nat,
                    rank[root],
                    origin,
                    params,
                ).1,
            decreases count - i,
        {
            let child = children[i];
            let ghost before = self.nodes();
            assert(start[root].children@[i as int] == child);
            assert(self.contains(child) && rank[child] < rank[root]);
            let c = elements_index_mut(&mut self.elements, child);
            let mut position = origin;
            match dir {
                Direction::Horizontal => {
                    position.x = position.x.saturating_add(axis_start);
                },
                Direction::Vertical => {
                    position.y = position.y.saturating_add(axis_start);
                },
            }
            c.position = glam_saturating_add(
                position,
                Vec2 { x: params.padding.left, y: params.padding.top },
            );
            axis_start = increase_axis(axis_start, dir, c.size);
            axis_start = axis_start.saturating_add(params.gap);
            proof {
                lemma_resize_step(start, before, child, self.nodes()[child]);
                lemma_resized_wf(*old(self), *self);
            }
            let ghost placed = *self;
            self.calculate_positions(child);
            i += 1;
            proof {
                lemma_same_shape_trans(start, placed.nodes(), self.nodes());
            }
        }
    }
}

} // verus!
