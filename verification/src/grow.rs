//! The grow-distribution pass: top-down, every node hands the space its
//! children leave free to those of them that grow.

use crate::axis::{axify, main_of, with_cross, with_main, AxisSizes};
use crate::fit::{gap_total, gaps};
use crate::geometry::{
    cap16, content_area, glam_clamp, glam_saturating_add, glam_saturating_sub, inner_area,
    Direction, Vec2,
};
use crate::policy::LayoutParams;
use crate::share::{distribute, water_fill};
use crate::store::{
    elements_index_mut, lemma_resize_step, lemma_resized_wf, lemma_same_shape_ranked,
    lemma_same_shape_trans, ranked, same_shape, share_children, ElementCtx, ElementIdx, NodeMap,
    RankMap,
};
use crate::tree::{
    in_children, in_subtree, kids_of, lemma_in_children, lemma_listed, lemma_not_below_children,
    lemma_same_shape_kids, listed,
};
use vstd::prelude::*;

verus! {

/// The sizes of the first `k` children in `cs`, added up in each dimension
/// and capped at the grid's largest length.
pub open spec fn used_space(nodes: NodeMap, cs: Seq<ElementIdx>, k: nat) -> Vec2
    decreases k,
{
    if k == 0 {
        Vec2 { x: 0, y: 0 }
    } else {
        used_space(nodes, cs, (k - 1) as nat).plus(nodes[cs[k - 1]].size)
    }
}

/// What a node of size `size` has left when its children use `used`: never
/// less than nothing, never more than its content area `inner`. Across the
/// node's direction this is what a growing child is given.
pub open spec fn leftover(size: Vec2, used: Vec2, inner: Vec2) -> Vec2 {
    size.minus(used).clamped(Vec2 { x: 0, y: 0 }, inner)
}

/// What a node with the content area `inner` can hand out along its
/// direction among `count` children that use `used`: the content area less
/// what the children use and less the gaps between them, never less than
/// nothing.
pub open spec fn main_budget(inner: Vec2, used: Vec2, params: LayoutParams, count: nat) -> u16 {
    cap16(
        cap16(main_of(inner, params.direction) - main_of(used, params.direction)) - cap16(
            gaps(params.gap, count),
        ),
    )
}

/// The node records after each of the first `k` children in `cs` that grows
/// across `dir` has been given the cross-axis size `cross`.
pub open spec fn fill_cross(
    nodes: NodeMap,
    cs: Seq<ElementIdx>,
    k: nat,
    dir: Direction,
    cross: u16,
) -> NodeMap
    decreases k,
{
    if k == 0 {
        nodes
    } else {
        let before = fill_cross(nodes, cs, (k - 1) as nat, dir, cross);
        let c = cs[k - 1];
        if before[c].layout_params.cross_policy(dir).grows() {
            before.insert(c, before[c].sized(with_cross(before[c].size, dir, cross)))
        } else {
            before
        }
    }
}

/// The main-axis sizes of the children in `cs`, in order.
pub open spec fn main_sizes(nodes: NodeMap, cs: Seq<ElementIdx>, dir: Direction) -> Seq<u16> {
    Seq::new(cs.len(), |k: int| main_of(nodes[cs[k]].size, dir))
}

/// For each child in `cs`, whether it grows along `dir`.
pub open spec fn grow_flags(nodes: NodeMap, cs: Seq<ElementIdx>, dir: Direction) -> Seq<bool> {
    Seq::new(cs.len(), |k: int| nodes[cs[k]].layout_params.main_policy(dir).grows())
}

/// The node records after each of the first `k` children in `cs` that grows
/// along `dir` has been given its main-axis size from `sizes`.
pub open spec fn store_main(
    nodes: NodeMap,
    cs: Seq<ElementIdx>,
    k: nat,
    dir: Direction,
    sizes: Seq<u16>,
    flags: Seq<bool>,
) -> NodeMap
    decreases k,
{
    if k == 0 {
        nodes
    } else {
        let before = store_main(nodes, cs, (k - 1) as nat, dir, sizes, flags);
        let c = cs[k - 1];
        if flags[k - 1] {
            before.insert(c, before[c].sized(with_main(before[c].size, dir, sizes[k - 1])))
        } else {
            before
        }
    }
}

/// The node records after the children of `id` have shared out what `id`
/// has left over, before the pass goes on into the children.
pub open spec fn grow_level(nodes: NodeMap, id: ElementIdx) -> NodeMap {
    let node = nodes[id];
    let dir = node.layout_params.direction;
    let cs = node.children@;
    let inner = inner_area(node.size, node.layout_params.padding);
    let used = used_space(nodes, cs, cs.len());
    let remaining = AxisSizes::of(leftover(node.size, used, inner), dir);
    let budget = main_budget(inner, used, node.layout_params, cs.len());
    let crossed = fill_cross(nodes, cs, cs.len(), dir, remaining.cross_axis);
    let flags = grow_flags(crossed, cs, dir);
    let filled = water_fill(main_sizes(crossed, cs, dir), flags, budget);
    store_main(crossed, cs, cs.len(), dir, filled, flags)
}

/// The node records after the grow-distribution pass over the subtree of
/// `id`.
pub open spec fn grow_sizes(nodes: NodeMap, rank: RankMap, id: ElementIdx) -> NodeMap
    decreases rank[id], 1nat, 0nat,
{
    let cs = nodes[id].children@;
    grow_children(grow_level(nodes, id), rank, cs, cs.len(), rank[id])
}

/// The node records after the pass has gone into the first `k` children in
/// `cs`, one after the other. `bound` is the parent's number.
pub open spec fn grow_children(
    nodes: NodeMap,
    rank: RankMap,
    cs: Seq<ElementIdx>,
    k: nat,
    bound: nat,
) -> NodeMap
    decreases bound, 0nat, k,
{
    if k == 0 {
        nodes
    } else {
        let before = grow_children(nodes, rank, cs, (k - 1) as nat, bound);
        let c = cs[k - 1];
        if rank[c] < bound {
            grow_sizes(before, rank, c)
        } else {
            before
        }
    }
}

/// No dimension of `b` differs from `a` where the node does not grow in it,
/// and no position differs at all.
pub open spec fn grown_from(a: NodeMap, b: NodeMap) -> bool {
    forall|m: ElementIdx|
        #![trigger b[m]]
        a.dom().contains(m) ==> {
            &&& b[m].position == a[m].position
            &&& !a[m].layout_params.width.grows() ==> b[m].size.x == a[m].size.x
            &&& !a[m].layout_params.height.grows() ==> b[m].size.y == a[m].size.y
        }
}

/// Filling the cross axis touches the listed children only, and of them
/// only the dimension across `dir` where they grow in it.
pub proof fn lemma_fill_cross_frame(
    nodes: NodeMap,
    cs: Seq<ElementIdx>,
    k: nat,
    dir: Direction,
    cross: u16,
)
    requires
        k <= cs.len(),
        forall|j: int| 0 <= j < k ==> nodes.dom().contains(#[trigger] cs[j]),
    ensures
        same_shape(nodes, fill_cross(nodes, cs, k, dir, cross)),
        grown_from(nodes, fill_cross(nodes, cs, k, dir, cross)),
        forall|m: ElementIdx|
            !listed(cs, k, m) ==> #[trigger] fill_cross(nodes, cs, k, dir, cross)[m] == nodes[m],
    decreases k,
{
    if k > 0 {
        lemma_fill_cross_frame(nodes, cs, (k - 1) as nat, dir, cross);
        let before = fill_cross(nodes, cs, (k - 1) as nat, dir, cross);
        let c = cs[k - 1];
        if before[c].layout_params.cross_policy(dir).grows() {
            let node = before[c].sized(with_cross(before[c].size, dir, cross));
            lemma_resize_step(nodes, before, c, node);
            assert(before[c].layout_params == nodes[c].layout_params);
        }
    }
}

/// Storing main-axis sizes touches the listed children only, and of them
/// only the dimension along `dir`, provided that only growing children are
/// flagged.
pub proof fn lemma_store_main_frame(
    nodes: NodeMap,
    cs: Seq<ElementIdx>,
    k: nat,
    dir: Direction,
    sizes: Seq<u16>,
    flags: Seq<bool>,
)
    requires
        k <= cs.len(),
        forall|j: int| 0 <= j < k ==> nodes.dom().contains(#[trigger] cs[j]),
        forall|j: int|
            0 <= j < k && flags[j] ==> nodes[#[trigger] cs[j]].layout_params.main_policy(
                dir,
            ).grows(),
    ensures
        same_shape(nodes, store_main(nodes, cs, k, dir, sizes, flags)),
        grown_from(nodes, store_main(nodes, cs, k, dir, sizes, flags)),
        forall|m: ElementIdx|
            !listed(cs, k, m) ==> #[trigger] store_main(nodes, cs, k, dir, sizes, flags)[m]
                == nodes[m],
    decreases k,
{
    if k > 0 {
        lemma_store_main_frame(nodes, cs, (k - 1) as nat, dir, sizes, flags);
        let before = store_main(nodes, cs, (k - 1) as nat, dir, sizes, flags);
        let c = cs[k - 1];
        if flags[k - 1] {
            let node = before[c].sized(with_main(before[c].size, dir, sizes[k - 1]));
            lemma_resize_step(nodes, before, c, node);
            assert(before[c].layout_params == nodes[c].layout_params);
        }
    }
}

/// Sharing out a node's leftover space touches its children only, and of
/// them only the dimensions in which they grow.
pub proof fn lemma_grow_level_frame(nodes: NodeMap, rank: RankMap, id: ElementIdx)
    requires
        ranked(nodes, rank),
        nodes.dom().contains(id),
    ensures
        same_shape(nodes, grow_level(nodes, id)),
        grown_from(nodes, grow_level(nodes, id)),
        forall|m: ElementIdx|
            !listed(nodes[id].children@, nodes[id].children@.len(), m) ==> #[trigger] grow_level(
                nodes,
                id,
            )[m] == nodes[m],
        grow_level(nodes, id)[id] == nodes[id],
{
    let node = nodes[id];
    let dir = node.layout_params.direction;
    let cs = node.children@;
    let inner = inner_area(node.size, node.layout_params.padding);
    let used = used_space(nodes, cs, cs.len());
    let remaining = AxisSizes::of(leftover(node.size, used, inner), dir);
    assert forall|j: int| 0 <= j < cs.len() implies nodes.dom().contains(#[trigger] cs[j])
        && rank[cs[j]] < rank[id] by {
        assert(nodes[id].children@[j] == cs[j]);
    }
    lemma_fill_cross_frame(nodes, cs, cs.len(), dir, remaining.cross_axis);
    let crossed = fill_cross(nodes, cs, cs.len(), dir, remaining.cross_axis);
    let flags = grow_flags(crossed, cs, dir);
    let budget = main_budget(inner, used, node.layout_params, cs.len());
    let filled = water_fill(main_sizes(crossed, cs, dir), flags, budget);
    assert forall|j: int| 0 <= j < cs.len() && flags[j] implies crossed[#[trigger] cs[j]]
        .layout_params.main_policy(dir).grows() by {}
    lemma_store_main_frame(crossed, cs, cs.len(), dir, filled, flags);
    let grown = store_main(crossed, cs, cs.len(), dir, filled, flags);
    lemma_same_shape_trans(nodes, crossed, grown);
    assert forall|m: ElementIdx| nodes.dom().contains(m) implies {
        &&& (#[trigger] grown[m]).position == nodes[m].position
        &&& !nodes[m].layout_params.width.grows() ==> grown[m].size.x == nodes[m].size.x
        &&& !nodes[m].layout_params.height.grows() ==> grown[m].size.y == nodes[m].size.y
    } by {
        assert(crossed[m].layout_params == nodes[m].layout_params);
        assert(crossed[m].position == nodes[m].position);
    }
    lemma_listed(cs, cs.len(), id);
}

/// The grow-distribution pass over the subtree of `id` keeps every node's
/// shape and position and every dimension that does not grow, changes no
/// node outside the subtree, and leaves `id` itself as it is.
pub proof fn lemma_grow_frame(nodes: NodeMap, rank: RankMap, id: ElementIdx)
    requires
        ranked(nodes, rank),
        nodes.dom().contains(id),
    ensures
        same_shape(nodes, grow_sizes(nodes, rank, id)),
        grown_from(nodes, grow_sizes(nodes, rank, id)),
        forall|m: ElementIdx|
            !in_subtree(kids_of(nodes), rank, id, m) ==> #[trigger] grow_sizes(nodes, rank, id)[m]
                == nodes[m],
        grow_sizes(nodes, rank, id)[id] == nodes[id],
    decreases rank[id], 1nat, 0nat,
{
    let cs = nodes[id].children@;
    let kids = kids_of(nodes);
    lemma_grow_level_frame(nodes, rank, id);
    let level = grow_level(nodes, id);
    lemma_same_shape_ranked(nodes, level, rank);
    lemma_same_shape_kids(nodes, level);
    assert forall|j: int| 0 <= j < cs.len() implies level.dom().contains(#[trigger] cs[j])
        && rank[cs[j]] < rank[id] by {
        assert(nodes[id].children@[j] == cs[j]);
    }
    lemma_grow_children_frame(level, rank, cs, cs.len(), rank[id]);
    let result = grow_children(level, rank, cs, cs.len(), rank[id]);
    lemma_same_shape_trans(nodes, level, result);
    assert(kids[id] == cs);
    lemma_not_below_children(nodes, rank, id, cs.len());
    assert forall|m: ElementIdx| !in_subtree(kids, rank, id, m) implies #[trigger] result[m]
        == nodes[m] by {
        assert(!in_children(kids, rank, cs, cs.len(), rank[id], m));
        lemma_listed(cs, cs.len(), m);
        lemma_in_children(kids, rank, cs, cs.len(), rank[id], m);
        if listed(cs, cs.len(), m) {
            let j = choose|j: int| 0 <= j < cs.len() && #[trigger] cs[j] == m;
            assert(in_subtree(kids, rank, cs[j], m));
        }
    }
    assert forall|m: ElementIdx| nodes.dom().contains(m) implies {
        &&& (#[trigger] result[m]).position == nodes[m].position
        &&& !nodes[m].layout_params.width.grows() ==> result[m].size.x == nodes[m].size.x
        &&& !nodes[m].layout_params.height.grows() ==> result[m].size.y == nodes[m].size.y
    } by {
        assert(level[m].layout_params == nodes[m].layout_params);
        assert(level[m].position == nodes[m].position);
    }
}

/// As [`lemma_grow_frame`], for the first `k` children in `cs`.
pub proof fn lemma_grow_children_frame(
    nodes: NodeMap,
    rank: RankMap,
    cs: Seq<ElementIdx>,
    k: nat,
    bound: nat,
)
    requires
        ranked(nodes, rank),
        k <= cs.len(),
        forall|j: int| 0 <= j < k ==> nodes.dom().contains(#[trigger] cs[j]) && rank[cs[j]] < bound,
    ensures
        same_shape(nodes, grow_children(nodes, rank, cs, k, bound)),
        grown_from(nodes, grow_children(nodes, rank, cs, k, bound)),
        forall|m: ElementIdx|
            !in_children(kids_of(nodes), rank, cs, k, bound, m) ==> #[trigger] grow_children(
                nodes,
                rank,
                cs,
                k,
                bound,
            )[m] == nodes[m],
    decreases bound, 0nat, k,
{
    if k > 0 {
        lemma_grow_children_frame(nodes, rank, cs, (k - 1) as nat, bound);
        let before = grow_children(nodes, rank, cs, (k - 1) as nat, bound);
        let c = cs[k - 1];
        lemma_same_shape_ranked(nodes, before, rank);
        lemma_same_shape_kids(nodes, before);
        lemma_grow_frame(before, rank, c);
        let result = grow_sizes(before, rank, c);
        lemma_same_shape_trans(nodes, before, result);
        assert forall|m: ElementIdx|
            !in_children(kids_of(nodes), rank, cs, k, bound, m) implies #[trigger] result[m]
            == nodes[m] by {
            assert(!in_subtree(kids_of(nodes), rank, c, m));
            assert(result[m] == before[m]);
        }
        assert forall|m: ElementIdx| nodes.dom().contains(m) implies {
            &&& (#[trigger] result[m]).position == nodes[m].position
            &&& !nodes[m].layout_params.width.grows() ==> result[m].size.x == nodes[m].size.x
            &&& !nodes[m].layout_params.height.grows() ==> result[m].size.y == nodes[m].size.y
        } by {
            assert(before[m].layout_params == nodes[m].layout_params);
            assert(before[m].position == nodes[m].position);
        }
    }
}

impl ElementCtx {
    /// Shares out, among the children of `element`, the space that they
    /// leave free: every child that grows across the node's direction gets
    /// the whole cross-axis remainder, and what the content area has left
    /// along the direction, beside the children and the gaps, goes to the
    /// children that grow along it, the smallest first.
    pub fn grow_children_of(&mut self, element: ElementIdx)
        requires
            old(self).wf(),
            old(self).contains(element),
        ensures
            final(self).nodes() == grow_level(old(self).nodes(), element),
            final(self).resized_from(*old(self)),
            final(self).wf(),
    {
        let el = self.node(element);
        let children = share_children(&el.children);
        let params = el.layout_params;
        let size = el.size;
        let dir = params.direction;
        let inner = content_area(size, params.padding);
        let count = children.len();
        let ghost start = self.nodes();
        let ghost cs = children@;

        let mut used = Vec2 { x: 0, y: 0 };
        let mut i: usize = 0;
        while i < count
            invariant
                i <= count,
                count == cs.len(),
                cs == children@,
                self.wf(),
                self.contains(element),
                cs == self.nodes()[element].children@,
                start == self.nodes(),
                used == used_space(start, cs, i as nat),
            decreases count - i,
        {
            let child = children[i];
            assert(self.nodes()[element].children@[i as int] == child);
            used = glam_saturating_add(used, self.node(child).size);
            i += 1;
        }
        let remaining = axify(
            glam_clamp(glam_saturating_sub(size, used), Vec2 { x: 0, y: 0 }, inner),
            dir,
        );

        let mut i: usize = 0;
        while i < count
            invariant
                i <= count,
                count == cs.len(),
                cs == children@,
                old(self).wf(),
                start == old(self).nodes(),
                old(self).contains(element),
                cs == start[element].children@,
                self.resized_from(*old(self)),
                self.nodes() == fill_cross(start, cs, i as nat, dir, remaining.cross_axis),
            decreases count - i,
        {
            let child = children[i];
            let ghost before = self.nodes();
            assert(start[element].children@[i as int] == child);
            let c = elements_index_mut(&mut self.elements, child);
            if c.layout_params.cross_size(dir).is_grow() {
                let mut size = AxisSizes::from_u16vec2(c.size, dir);
                size.cross_axis = remaining.cross_axis;
                c.size = size.to_u16vec2(dir);
            }
            i += 1;
            proof {
                lemma_resize_step(start, before, child, self.nodes()[child]);
                assert(self.nodes() =~= fill_cross(start, cs, i as nat, dir, remaining.cross_axis));
            }
        }
        let ghost crossed = self.nodes();
        proof {
            lemma_resized_wf(*old(self), *self);
        }

        let mut sizes: Vec<u16> = Vec::new();
        let mut flags: Vec<bool> = Vec::new();
        let mut i: usize = 0;
        while i < count
            invariant
                i <= count,
                count == cs.len(),
                cs == children@,
                self.wf(),
                self.contains(element),
                cs == self.nodes()[element].children@,
                crossed == self.nodes(),
                sizes.len() == i,
                flags.len() == i,
                forall|j: int| 0 <= j < i ==> sizes@[j] == main_sizes(crossed, cs, dir)[j],
                forall|j: int| 0 <= j < i ==> flags@[j] == grow_flags(crossed, cs, dir)[j],
            decreases count - i,
        {
            let child = children[i];
            assert(self.nodes()[element].children@[i as int] == child);
            let c = self.node(child);
            sizes.push(axify(c.size, dir).main_axis);
            flags.push(c.layout_params.main_size(dir).is_grow());
            i += 1;
        }
        assert(sizes@ =~= main_sizes(crossed, cs, dir));
        assert(flags@ =~= grow_flags(crossed, cs, dir));
        let budget = axify(inner, dir).main_axis.saturating_sub(
            axify(used, dir).main_axis,
        ).saturating_sub(gap_total(params.gap, count));
        distribute(&mut sizes, &flags, budget);

        let mut i: usize = 0;
        while i < count
            invariant
                i <= count,
                count == cs.len(),
                count == sizes.len(),
                count == flags.len(),
                cs == children@,
                old(self).wf(),
                start == old(self).nodes(),
                old(self).contains(element),
                cs == start[element].children@,
                self.resized_from(*old(self)),
                self.nodes() == store_main(crossed, cs, i as nat, dir, sizes@, flags@),
            decreases count - i,
        {
            let child = children[i];
            let ghost before = self.nodes();
            assert(start[element].children@[i as int] == child);
            if flags[i] {
                let c = elements_index_mut(&mut self.elements, child);
                let mut size = axify(c.size, dir);
                size.main_axis = sizes[i];
                c.size = size.to_u16vec2(dir);
                proof {
                    lemma_resize_step(start, before, child, self.nodes()[child]);
                }
            }
            i += 1;
            proof {
                assert(self.nodes() =~= store_main(crossed, cs, i as nat, dir, sizes@, flags@));
            }
        }
        proof {
            lemma_resized_wf(*old(self), *self);
        }
    }

    /// Runs the grow distribution over the subtree of `element`, top-down:
    /// the node's own children first, then each child's subtree with the
    /// size the child has got.
    pub fn calculate_grow_sizes(&mut self, element: ElementIdx)
        requires
            old(self).wf(),
            old(self).contains(element),
        ensures
            final(self).nodes() == grow_sizes(old(self).nodes(), old(self).ranks(), element),
            final(self).resized_from(*old(self)),
            final(self).wf(),
        decreases old(self).ranks()[element],
    {
        let children = share_children(&self.node(element).children);
        self.grow_children_of(element);
        let ghost level = self.nodes();
        let ghost rank = self.ranks();
        let ghost cs = children@;
        let count = children.len();
        let mut i: usize = 0;
        while i < count
            invariant
                i <= count,
                count == cs.len(),
                cs == children@,
                old(self).wf(),
                old(self).contains(element),
                cs == old(self).nodes()[element].children@,
                rank == old(self).ranks(),
                self.resized_from(*old(self)),
                self.wf(),
                self.nodes() == grow_children(level, rank, cs, i as nat, rank[element]),
            decreases count - i,
        {
            let child = children[i];
            assert(old(self).nodes()[element].children@[i as int] == child);
            assert(self.contains(child) && rank[child] < rank[element]);
            let ghost before = *self;
            self.calculate_grow_sizes(child);
            i += 1;
            proof {
                crate::store::lemma_same_shape_trans(
                    old(self).nodes(),
                    before.nodes(),
                    self.nodes(),
                );
            }
        }
    }
}

} // verus!
