//! What holds of every layout and of every traversal.

use crate::agree::{
    lemma_fit_same, lemma_grow_same, lemma_positions_same, lemma_same_shape_sym, reads_agree,
};
use crate::axis::{cross_of, main_of, padding_main, AxisSizes};
use crate::bounds::{all_differ, lemma_level_within};
use crate::fit::{
    clamp_child, content_size, declared_size, fit_children, fit_sizes, gaps, held_by,
    lemma_fit_children_frame, lemma_fit_frame, lemma_fit_law, own_fit_size, resolved_size,
};
use crate::geometry::{inner_area, Direction, Padding, Region, Vec2};
use crate::grow::{
    fill_cross, grow_children, grow_flags, grow_level, grow_sizes, lemma_grow_frame,
    lemma_grow_level_frame, leftover, main_budget, main_sizes, store_main, used_space,
};
use crate::layout::layout;
use crate::levels::{lemma_grow_law, share_of, shared_by};
use crate::policy::Size;
use crate::position::{
    child_position, lemma_positions_frame, lemma_positions_law, next_offset, offset_before,
    placed_by, positions,
};
use crate::render::{lemma_paint_within, paint_calls};
use crate::share::{entries_total, lemma_fill_pair, lemma_fill_single, water_fill};
use crate::store::{
    lemma_resize_same_shape, lemma_same_shape_ranked, lemma_same_shape_trans, ranked, same_shape,
    ElementCtx, ElementIdx, NodeMap, RankMap,
};
use crate::tree::{
    in_subtree, is_tree, kids_of, lemma_not_below_children, lemma_parent_below,
    lemma_same_shape_kids, lemma_subtree_rank, lemma_tree_below, lemma_tree_children_differ,
};
use vstd::prelude::*;

verus! {

/// A layout keeps every node's content, parameters and children, and
/// changes no node outside the subtree it starts from.
pub proof fn law_layout_frame(nodes: NodeMap, rank: RankMap, root: ElementIdx)
    requires
        ranked(nodes, rank),
        nodes.dom().contains(root),
    ensures
        same_shape(nodes, layout(nodes, rank, root)),
        forall|m: ElementIdx|
            !in_subtree(kids_of(nodes), rank, root, m) ==> #[trigger] layout(
                nodes,
                rank,
                root,
            )[m] == nodes[m],
        layout(nodes, rank, root)[root].position == nodes[root].position,
{
    let fitted = fit_sizes(nodes, rank, root);
    lemma_fit_frame(nodes, rank, root);
    lemma_same_shape_ranked(nodes, fitted, rank);
    lemma_same_shape_kids(nodes, fitted);
    let grown = grow_sizes(fitted, rank, root);
    lemma_grow_frame(fitted, rank, root);
    lemma_same_shape_trans(nodes, fitted, grown);
    lemma_same_shape_ranked(nodes, grown, rank);
    lemma_same_shape_kids(nodes, grown);
    lemma_positions_frame(grown, rank, root);
    lemma_same_shape_trans(nodes, grown, layout(nodes, rank, root));
    assert(fitted[root].position == nodes[root].position);
}

/// The size the fit-sizing pass gives the node it starts from: its fixed
/// dimensions as declared, the others as large as its children, its padding
/// and its gaps need.
pub proof fn lemma_fit_root(nodes: NodeMap, rank: RankMap, root: ElementIdx)
    requires
        ranked(nodes, rank),
        nodes.dom().contains(root),
    ensures
        fit_sizes(nodes, rank, root)[root].size == resolved_size(
            declared_size(nodes[root]),
            nodes[root].layout_params,
            content_size(
                fit_children(
                    nodes.insert(root, nodes[root].sized(declared_size(nodes[root]))),
                    rank,
                    nodes[root].children@,
                    nodes[root].children@.len(),
                    rank[root],
                    nodes[root].layout_params,
                    inner_area(declared_size(nodes[root]), nodes[root].layout_params.padding),
                ).1,
                nodes[root].layout_params,
                nodes[root].children@.len(),
            ),
        ),
{
    let node = nodes[root];
    let size = declared_size(node);
    let started = nodes.insert(root, node.sized(size));
    let ceiling = inner_area(size, node.layout_params.padding);
    let cs = node.children@;
    lemma_resize_same_shape(nodes, root, node.sized(size));
    lemma_same_shape_ranked(nodes, started, rank);
    assert forall|j: int| 0 <= j < cs.len() implies started.dom().contains(#[trigger] cs[j])
        && rank[cs[j]] < rank[root] by {
        assert(nodes[root].children@[j] == cs[j]);
    }
    lemma_fit_children_frame(started, rank, cs, cs.len(), rank[root], node.layout_params, ceiling);
    lemma_not_below_children(started, rank, root, cs.len());
}

/// A fixed dimension of the node a layout starts from has its declared
/// value afterwards, whatever its children are.
pub proof fn law_fixed_root(nodes: NodeMap, rank: RankMap, root: ElementIdx)
    requires
        ranked(nodes, rank),
        nodes.dom().contains(root),
    ensures
        nodes[root].layout_params.width matches Size::Fixed(n) ==> layout(
            nodes,
            rank,
            root,
        )[root].size.x == n,
        nodes[root].layout_params.height matches Size::Fixed(n) ==> layout(
            nodes,
            rank,
            root,
        )[root].size.y == n,
{
    let fitted = fit_sizes(nodes, rank, root);
    lemma_fit_root(nodes, rank, root);
    lemma_fit_frame(nodes, rank, root);
    lemma_same_shape_ranked(nodes, fitted, rank);
    lemma_grow_frame(fitted, rank, root);
    let grown = grow_sizes(fitted, rank, root);
    lemma_same_shape_trans(nodes, fitted, grown);
    lemma_same_shape_ranked(nodes, grown, rank);
    lemma_positions_frame(grown, rank, root);
}

/// No size a layout leaves behind has a negative component, and a content
/// area is never negative either, however large the padding.
pub proof fn law_sizes_non_negative(
    nodes: NodeMap,
    rank: RankMap,
    root: ElementIdx,
    m: ElementIdx,
    size: Vec2,
    padding: Padding,
)
    ensures
        layout(nodes, rank, root)[m].size.x >= 0,
        layout(nodes, rank, root)[m].size.y >= 0,
        inner_area(size, padding).x >= 0,
        inner_area(size, padding).y >= 0,
{
}

/// On a surface of `width` columns and `height` rows, every paint call's
/// rectangle holds only cells of the surface.
pub proof fn law_paint_on_surface(
    nodes: NodeMap,
    rank: RankMap,
    root: ElementIdx,
    width: u16,
    height: u16,
    k: int,
)
    requires
        0 <= k < paint_calls(nodes, rank, root, Region { x: 0, y: 0, width, height }).len(),
    ensures
        forall|cx: int, cy: int|
            (#[trigger] paint_calls(
                nodes,
                rank,
                root,
                Region { x: 0, y: 0, width, height },
            )[k].area.has_cell(cx, cy)) ==> 0 <= cx < width && 0 <= cy < height,
{
    let surface = Region { x: 0, y: 0, width, height };
    let call = paint_calls(nodes, rank, root, surface)[k];
    lemma_paint_within(nodes, rank, root, surface);
    assert(call.area.within(surface));
    assert forall|cx: int, cy: int| #[trigger] call.area.has_cell(cx, cy) implies 0 <= cx < width
        && 0 <= cy < height by {
        assert(surface.has_cell(cx, cy));
    }
}

/// What the fit-sizing pass makes of a node with one child: the child has
/// the size of its own subtree, held down by the node where the node does
/// not fit its children, and the node's own content is that one child.
pub proof fn lemma_fit_only_child(
    nodes: NodeMap,
    rank: RankMap,
    parent: ElementIdx,
    child: ElementIdx,
)
    requires
        ranked(nodes, rank),
        nodes.dom().contains(parent),
        nodes[parent].children@.len() == 1,
        nodes[parent].children@[0] == child,
    ensures
        ({
            let params = nodes[parent].layout_params;
            let declared = declared_size(nodes[parent]);
            let ceiling = inner_area(declared, params.padding);
            let fitted = fit_sizes(nodes, rank, parent);
            let zero = AxisSizes { main_axis: 0, cross_axis: 0 };
            &&& fitted[child].size.x <= (if params.width.clamps() {
                ceiling.x
            } else {
                0xffffu16
            })
            &&& fitted[child].size.y <= (if params.height.clamps() {
                ceiling.y
            } else {
                0xffffu16
            })
            &&& !params.width.clamps() && !params.height.clamps() ==> fitted[child].size
                == fit_sizes(
                nodes.insert(parent, nodes[parent].sized(declared)),
                rank,
                child,
            )[child].size
            &&& fitted[parent].size == resolved_size(
                declared,
                params,
                content_size(zero.increased(fitted[child].size, params.direction), params, 1),
            )
            &&& child != parent
        }),
{
    let node = nodes[parent];
    let params = node.layout_params;
    let declared = declared_size(node);
    let started = nodes.insert(parent, node.sized(declared));
    let ceiling = inner_area(declared, params.padding);
    let cs = node.children@;
    reveal_with_fuel(fit_children, 2);
    lemma_resize_same_shape(nodes, parent, node.sized(declared));
    lemma_same_shape_ranked(nodes, started, rank);
    assert(started.dom().contains(child) && rank[child] < rank[parent]) by {
        assert(nodes[parent].children@[0] == child);
    }
    lemma_fit_frame(started, rank, child);
    let own = fit_sizes(started, rank, child);
    assert(fit_children(started, rank, cs, 0, rank[parent], params, ceiling).0 == started);
    let held = clamp_child(own[child].size, params, ceiling);
    let after = own.insert(child, own[child].sized(held));
    assert(fit_children(started, rank, cs, 1, rank[parent], params, ceiling).0 == after);
    lemma_fit_root(nodes, rank, parent);
}

/// A single child that grows in width, inside a node of fixed width
/// without padding at its left and right that lays its children out side
/// by side, is as wide as that node after a layout started from the node.
pub proof fn law_grow_fills_parent(
    nodes: NodeMap,
    rank: RankMap,
    parent: ElementIdx,
    child: ElementIdx,
    n: u16,
)
    requires
        ranked(nodes, rank),
        nodes.dom().contains(parent),
        nodes[parent].children@.len() == 1,
        nodes[parent].children@[0] == child,
        nodes[parent].layout_params.width == Size::Fixed(n),
        nodes[parent].layout_params.direction == Direction::Horizontal,
        nodes[parent].layout_params.padding.left == 0,
        nodes[parent].layout_params.padding.right == 0,
        nodes[child].layout_params.width == Size::Grow,
    ensures
        layout(nodes, rank, parent)[child].size.x == n,
        layout(nodes, rank, parent)[parent].size.x == n,
{
    let params = nodes[parent].layout_params;
    let fitted = fit_sizes(nodes, rank, parent);
    lemma_fit_only_child(nodes, rank, parent, child);
    lemma_fit_frame(nodes, rank, parent);
    lemma_same_shape_ranked(nodes, fitted, rank);
    assert(fitted[parent].size.x == n);
    assert(fitted[child].size.x <= n);
    lemma_level_only_child(fitted, rank, parent, child);
    let level = grow_level(fitted, parent);
    assert(crate::fit::gaps(params.gap, 1) == 0) by (nonlinear_arith);
    lemma_fill_single(fitted[child].size.x, (n - fitted[child].size.x) as u16);
    assert(level[child].size.x == n);
    lemma_grow_after_level(fitted, rank, parent, child);
    let grown = grow_sizes(fitted, rank, parent);
    lemma_grow_frame(fitted, rank, parent);
    lemma_same_shape_trans(nodes, fitted, grown);
    lemma_same_shape_ranked(nodes, grown, rank);
    lemma_positions_frame(grown, rank, parent);
}

/// What a node with one child shares out: the child's size across the
/// node's direction becomes the cross-axis remainder where the child grows
/// in it, and along the direction the child's size is what the fair
/// distribution makes of it, where it grows in that.
pub proof fn lemma_level_only_child(
    nodes: NodeMap,
    rank: RankMap,
    parent: ElementIdx,
    child: ElementIdx,
)
    requires
        ranked(nodes, rank),
        nodes.dom().contains(parent),
        nodes[parent].children@.len() == 1,
        nodes[parent].children@[0] == child,
    ensures
        ({
            let node = nodes[parent];
            let dir = node.layout_params.direction;
            let inner = inner_area(node.size, node.layout_params.padding);
            let remaining = AxisSizes::of(leftover(node.size, nodes[child].size, inner), dir);
            let budget = main_budget(inner, nodes[child].size, node.layout_params, 1);
            let level = grow_level(nodes, parent);
            let grows_across = nodes[child].layout_params.cross_policy(dir).grows();
            let grows_along = nodes[child].layout_params.main_policy(dir).grows();
            &&& cross_of(level[child].size, dir) == (if grows_across {
                remaining.cross_axis
            } else {
                cross_of(nodes[child].size, dir)
            })
            &&& main_of(level[child].size, dir) == (if grows_along {
                water_fill(seq![main_of(nodes[child].size, dir)], seq![true], budget)[0]
            } else {
                main_of(nodes[child].size, dir)
            })
            &&& level[parent] == nodes[parent]
        }),
{
    let node = nodes[parent];
    let dir = node.layout_params.direction;
    let cs = node.children@;
    let inner = inner_area(node.size, node.layout_params.padding);
    reveal_with_fuel(used_space, 2);
    reveal_with_fuel(fill_cross, 2);
    reveal_with_fuel(store_main, 2);
    assert(nodes.dom().contains(child) && rank[child] < rank[parent]) by {
        assert(nodes[parent].children@[0] == child);
    }
    let used = used_space(nodes, cs, 1);
    assert(used == nodes[child].size);
    let remaining = AxisSizes::of(leftover(node.size, used, inner), dir);
    let crossed = fill_cross(nodes, cs, 1, dir, remaining.cross_axis);
    let flags = grow_flags(crossed, cs, dir);
    let mains = main_sizes(crossed, cs, dir);
    assert(mains =~= seq![main_of(nodes[child].size, dir)]);
    assert(flags =~= seq![nodes[child].layout_params.main_policy(dir).grows()]);
    lemma_grow_level_frame(nodes, rank, parent);
}

/// After a node has shared out its leftover space, the rest of the pass
/// leaves the node's only child with the size it was given.
pub proof fn lemma_grow_after_level(
    nodes: NodeMap,
    rank: RankMap,
    parent: ElementIdx,
    child: ElementIdx,
)
    requires
        ranked(nodes, rank),
        nodes.dom().contains(parent),
        nodes[parent].children@.len() == 1,
        nodes[parent].children@[0] == child,
    ensures
        grow_sizes(nodes, rank, parent)[child] == grow_level(nodes, parent)[child],
{
    let cs = nodes[parent].children@;
    let level = grow_level(nodes, parent);
    reveal_with_fuel(grow_children, 2);
    lemma_grow_level_frame(nodes, rank, parent);
    lemma_same_shape_ranked(nodes, level, rank);
    assert(level.dom().contains(child) && rank[child] < rank[parent]) by {
        assert(nodes[parent].children@[0] == child);
    }
    lemma_grow_frame(level, rank, child);
    assert(grow_children(level, rank, cs, 0, rank[parent]) == level);
    assert(grow_children(level, rank, cs, 1, rank[parent]) == grow_sizes(level, rank, child));
    assert(grow_sizes(nodes, rank, parent) == grow_children(level, rank, cs, 1, rank[parent]));
}

/// A node that fits its one child in both dimensions and has no padding is
/// exactly as large as the child after a layout started from the node,
/// provided the child does not grow across the node's direction.
pub proof fn law_fit_matches_child(
    nodes: NodeMap,
    rank: RankMap,
    parent: ElementIdx,
    child: ElementIdx,
)
    requires
        ranked(nodes, rank),
        nodes.dom().contains(parent),
        nodes[parent].children@.len() == 1,
        nodes[parent].children@[0] == child,
        nodes[parent].layout_params.width == Size::Fit,
        nodes[parent].layout_params.height == Size::Fit,
        nodes[parent].layout_params.padding == (Padding { left: 0, right: 0, top: 0, bottom: 0 }),
        !nodes[child].layout_params.cross_policy(nodes[parent].layout_params.direction).grows(),
    ensures
        layout(nodes, rank, parent)[parent].size == layout(nodes, rank, parent)[child].size,
{
    let params = nodes[parent].layout_params;
    let dir = params.direction;
    let fitted = fit_sizes(nodes, rank, parent);
    lemma_fit_only_child(nodes, rank, parent, child);
    lemma_fit_frame(nodes, rank, parent);
    lemma_same_shape_ranked(nodes, fitted, rank);
    assert(params.gap * (1 - 1) == 0) by (nonlinear_arith);
    assert(fitted[parent].size == fitted[child].size);
    lemma_level_only_child(fitted, rank, parent, child);
    let level = grow_level(fitted, parent);
    lemma_fill_single(main_of(fitted[child].size, dir), 0);
    assert(level[child].size == fitted[child].size);
    lemma_grow_after_level(fitted, rank, parent, child);
    let grown = grow_sizes(fitted, rank, parent);
    lemma_grow_frame(fitted, rank, parent);
    lemma_same_shape_trans(nodes, fitted, grown);
    lemma_same_shape_ranked(nodes, grown, rank);
    lemma_positions_frame(grown, rank, parent);
}

/// The layout from `root` has left every growing node with children at the
/// size it had: the sizes that the next layout reads are those that this
/// one read. It holds of every tree in which no node with children grows.
pub open spec fn settled(nodes: NodeMap, rank: RankMap, root: ElementIdx) -> bool {
    forall|m: ElementIdx| #[trigger]
        in_subtree(kids_of(nodes), rank, root, m) ==> reads_agree(
            layout(nodes, rank, root)[m],
            nodes[m],
        )
}

/// A second layout of a tree that the first one has settled changes
/// nothing.
pub proof fn law_layout_idempotent(nodes: NodeMap, rank: RankMap, root: ElementIdx)
    requires
        ranked(nodes, rank),
        nodes.dom().contains(root),
        settled(nodes, rank, root),
    ensures
        layout(layout(nodes, rank, root), rank, root) == layout(nodes, rank, root),
{
    let kids = kids_of(nodes);
    let once = layout(nodes, rank, root);
    law_layout_frame(nodes, rank, root);
    lemma_same_shape_sym(nodes, once);
    lemma_same_shape_ranked(nodes, once, rank);
    lemma_same_shape_kids(nodes, once);
    law_layout_frame(once, rank, root);
    let twice = layout(once, rank, root);

    lemma_fit_same(once, nodes, rank, root);
    let fit_a = fit_sizes(once, rank, root);
    let fit_b = fit_sizes(nodes, rank, root);
    lemma_fit_frame(once, rank, root);
    lemma_fit_frame(nodes, rank, root);
    lemma_same_shape_sym(once, fit_a);
    lemma_same_shape_trans(fit_a, once, nodes);
    lemma_same_shape_trans(fit_a, nodes, fit_b);
    lemma_same_shape_ranked(once, fit_a, rank);
    lemma_same_shape_ranked(nodes, fit_b, rank);
    lemma_same_shape_kids(once, fit_a);
    lemma_same_shape_kids(nodes, fit_b);

    lemma_grow_same(fit_a, fit_b, rank, root);
    let grow_a = grow_sizes(fit_a, rank, root);
    let grow_b = grow_sizes(fit_b, rank, root);
    lemma_grow_frame(fit_a, rank, root);
    lemma_grow_frame(fit_b, rank, root);
    lemma_same_shape_sym(fit_a, grow_a);
    lemma_same_shape_trans(grow_a, fit_a, fit_b);
    lemma_same_shape_trans(grow_a, fit_b, grow_b);
    lemma_same_shape_ranked(fit_a, grow_a, rank);
    lemma_same_shape_ranked(fit_b, grow_b, rank);
    lemma_same_shape_kids(fit_a, grow_a);
    lemma_same_shape_kids(fit_b, grow_b);
    assert(grow_a[root].position == once[root].position);
    assert(grow_b[root].position == nodes[root].position);

    lemma_positions_same(grow_a, grow_b, rank, root);
    lemma_positions_frame(grow_a, rank, root);
    lemma_positions_frame(grow_b, rank, root);
    assert(twice == positions(grow_a, rank, root));
    assert(once == positions(grow_b, rank, root));

    assert forall|m: ElementIdx| once.dom().contains(m) implies #[trigger] twice[m]
        == once[m] by {
        if in_subtree(kids, rank, root, m) {
            assert(twice[m].position == once[m].position);
            assert(twice[m].size == grow_a[m].size);
            assert(once[m].size == grow_b[m].size);
            assert(twice[m].children == once[m].children);
            assert(twice[m].layout_params == once[m].layout_params);
            assert(twice[m].widget == once[m].widget);
        }
    }
    assert(twice =~= once);
}

/// Where no node with children grows, every layout is settled: laying
/// out twice is laying out once.
pub proof fn law_layout_twice(nodes: NodeMap, rank: RankMap, root: ElementIdx)
    requires
        ranked(nodes, rank),
        nodes.dom().contains(root),
        forall|m: ElementIdx| #[trigger]
            in_subtree(kids_of(nodes), rank, root, m) && nodes[m].children@.len() > 0
                ==> !nodes[m].layout_params.width.grows() && !nodes[m].layout_params.height.grows(),
    ensures
        layout(layout(nodes, rank, root), rank, root) == layout(nodes, rank, root),
{
    let once = layout(nodes, rank, root);
    law_layout_frame(nodes, rank, root);
    assert forall|m: ElementIdx| #[trigger]
        in_subtree(kids_of(nodes), rank, root, m) implies reads_agree(once[m], nodes[m]) by {
        crate::tree::lemma_subtree_rank(nodes, rank, root, m);
        assert(once[m].children == nodes[m].children);
        assert(once[m].layout_params == nodes[m].layout_params);
    }
    law_layout_idempotent(nodes, rank, root);
}

/// In a tree, a layout leaves every child of every node of the subtree
/// where its parent's position and padding and the sizes of its earlier
/// siblings put it.
pub proof fn law_children_placed(nodes: NodeMap, rank: RankMap, root: ElementIdx, p: ElementIdx)
    requires
        ranked(nodes, rank),
        nodes.dom().contains(root),
        is_tree(kids_of(nodes), rank, root),
        in_subtree(kids_of(nodes), rank, root, p),
    ensures
        placed_by(layout(nodes, rank, root), p),
        layout(nodes, rank, root)[p].children == nodes[p].children,
        layout(nodes, rank, root)[p].layout_params == nodes[p].layout_params,
{
    let fitted = fit_sizes(nodes, rank, root);
    lemma_fit_frame(nodes, rank, root);
    lemma_same_shape_ranked(nodes, fitted, rank);
    lemma_same_shape_kids(nodes, fitted);
    let grown = grow_sizes(fitted, rank, root);
    lemma_grow_frame(fitted, rank, root);
    lemma_same_shape_trans(nodes, fitted, grown);
    lemma_same_shape_ranked(nodes, grown, rank);
    lemma_same_shape_kids(nodes, grown);
    lemma_positions_law(grown, rank, root);
    law_layout_frame(nodes, rank, root);
    crate::tree::lemma_subtree_rank(nodes, rank, root, p);
}

/// In a tree, after a layout, each child stands behind its predecessor by
/// the predecessor's main-axis size and the gap, as long as that position
/// is below the grid's largest coordinate, and in any case not before it;
/// across the axis the two stand level.
pub proof fn law_siblings_follow(
    nodes: NodeMap,
    rank: RankMap,
    root: ElementIdx,
    p: ElementIdx,
    j: int,
)
    requires
        ranked(nodes, rank),
        nodes.dom().contains(root),
        is_tree(kids_of(nodes), rank, root),
        in_subtree(kids_of(nodes), rank, root, p),
        0 <= j,
        j + 1 < nodes[p].children@.len(),
    ensures
        ({
            let out = layout(nodes, rank, root);
            let dir = nodes[p].layout_params.direction;
            let gap = nodes[p].layout_params.gap;
            let first = out[nodes[p].children@[j]];
            let second = out[nodes[p].children@[j + 1]];
            &&& main_of(second.position, dir) >= main_of(first.position, dir)
            &&& main_of(second.position, dir) < 0xffff ==> main_of(second.position, dir)
                == main_of(first.position, dir) + main_of(first.size, dir) + gap
            &&& cross_of(second.position, dir) == cross_of(first.position, dir)
        }),
{
    let out = layout(nodes, rank, root);
    law_children_placed(nodes, rank, root, p);
    let cs = nodes[p].children@;
    let params = nodes[p].layout_params;
    assert(out[p].children@ == cs);
    let before = offset_before(out, cs, j as nat, params);
    let after = offset_before(out, cs, (j + 1) as nat, params);
    assert(after == next_offset(before, out[cs[j]].size, params));
    assert(out[cs[j]].position == child_position(
        out[p].position,
        before,
        params.padding,
        params.direction,
    ));
    assert(out[cs[j + 1]].position == child_position(
        out[p].position,
        after,
        params.padding,
        params.direction,
    ));
}

/// A layout of a tree, node by node. The root keeps its position and has
/// the size of its own account. Below it, every child has after the first
/// pass the size of its own account, held down by its parent; it ends with
/// the size that its parent, at the size the parent ended with, shared out
/// to it; and it stands where its parent and its earlier siblings put it.
pub proof fn law_layout_in_tree(nodes: NodeMap, rank: RankMap, root: ElementIdx, p: ElementIdx)
    requires
        ranked(nodes, rank),
        nodes.dom().contains(root),
        is_tree(kids_of(nodes), rank, root),
        in_subtree(kids_of(nodes), rank, root, p),
    ensures
        ({
            let fitted = fit_sizes(nodes, rank, root);
            let out = layout(nodes, rank, root);
            &&& out[root].position == nodes[root].position
            &&& out[root].size == own_fit_size(nodes, fitted, root)
            &&& held_by(nodes, fitted, p)
            &&& shared_by(fitted, out, p)
            &&& placed_by(out, p)
        }),
{
    let kids = kids_of(nodes);
    let fitted = fit_sizes(nodes, rank, root);
    lemma_fit_law(nodes, rank, root);
    lemma_fit_frame(nodes, rank, root);
    lemma_same_shape_ranked(nodes, fitted, rank);
    lemma_same_shape_kids(nodes, fitted);
    let grown = grow_sizes(fitted, rank, root);
    lemma_grow_law(fitted, rank, root);
    lemma_grow_frame(fitted, rank, root);
    lemma_same_shape_trans(nodes, fitted, grown);
    lemma_same_shape_ranked(nodes, grown, rank);
    lemma_same_shape_kids(nodes, grown);
    lemma_positions_frame(grown, rank, root);
    law_children_placed(nodes, rank, root, p);
    let out = layout(nodes, rank, root);
    crate::tree::lemma_subtree_rank(nodes, rank, root, p);
    assert(shared_by(fitted, grown, p));
    assert forall|j: int| 0 <= j < fitted[p].children@.len() implies out[
    #[trigger] fitted[p].children@[j]].size == share_of(fitted, p, out[p].size, j) by {
        let q = fitted[p].children@[j];
        assert(nodes[p].children@[j] == q);
    }
}

/// In a tree, after a layout, a fixed dimension of a child has its
/// declared value, or the extent of its parent's content area where the
/// parent does not fit its children and the declared value is larger. The
/// content area is that of the size the parent starts the layout with.
pub proof fn law_fixed_child(
    nodes: NodeMap,
    rank: RankMap,
    root: ElementIdx,
    p: ElementIdx,
    j: int,
)
    requires
        ranked(nodes, rank),
        nodes.dom().contains(root),
        is_tree(kids_of(nodes), rank, root),
        in_subtree(kids_of(nodes), rank, root, p),
        0 <= j < nodes[p].children@.len(),
    ensures
        ({
            let child = nodes[p].children@[j];
            let params = nodes[p].layout_params;
            let ceiling = inner_area(declared_size(nodes[p]), params.padding);
            let out = layout(nodes, rank, root);
            &&& nodes[child].layout_params.width matches Size::Fixed(n) ==> out[child].size.x
                == (if params.width.clamps() && n > ceiling.x {
                ceiling.x
            } else {
                n
            })
            &&& nodes[child].layout_params.height matches Size::Fixed(n) ==> out[child].size.y
                == (if params.height.clamps() && n > ceiling.y {
                ceiling.y
            } else {
                n
            })
        }),
{
    let child = nodes[p].children@[j];
    let fitted = fit_sizes(nodes, rank, root);
    law_layout_in_tree(nodes, rank, root, p);
    crate::tree::lemma_subtree_rank(nodes, rank, root, p);
    crate::tree::lemma_subtree_child(nodes, rank, root, p, j);
    lemma_fit_frame(nodes, rank, root);
    lemma_same_shape_ranked(nodes, fitted, rank);
    let grown = grow_sizes(fitted, rank, root);
    lemma_grow_frame(fitted, rank, root);
    lemma_same_shape_trans(nodes, fitted, grown);
    lemma_same_shape_ranked(nodes, grown, rank);
    lemma_positions_frame(grown, rank, root);
    assert(fitted[child].layout_params == nodes[child].layout_params);
    assert(grown[child].size == layout(nodes, rank, root)[child].size);
}

/// A node that no node has as a child lies below no other node: it can
/// take any other nodes of the arena as its children.
pub proof fn law_root_below_none(ctx: ElementCtx, top: ElementIdx, idx: ElementIdx)
    requires
        ctx.wf(),
        ctx.contains(top),
        ctx.is_root(idx),
        top != idx,
    ensures
        !ctx.below(top, idx),
{
    if ctx.below(top, idx) {
        lemma_parent_below(ctx.nodes(), ctx.ranks(), top, idx);
        let (z, j) = choose|z: ElementIdx, j: int|
            in_subtree(kids_of(ctx.nodes()), ctx.ranks(), top, z) && ctx.nodes().dom().contains(z)
                && 0 <= j < ctx.nodes()[z].children@.len() && #[trigger] ctx.nodes()[z].children@[j]
                == idx;
        assert(ctx.nodes()[z].children@[j] != idx);
    }
}

/// In a tree, after a layout, the node `p` shares out among its children as
/// the level of `p` says: the records in which `p` has the size it ended
/// with and every other node the size it had after the first pass are well
/// numbered, list no child of `p` twice, and give each child of `p` the
/// size it ends with.
proof fn lemma_layout_level(nodes: NodeMap, rank: RankMap, root: ElementIdx, p: ElementIdx)
    requires
        ranked(nodes, rank),
        nodes.dom().contains(root),
        is_tree(kids_of(nodes), rank, root),
        in_subtree(kids_of(nodes), rank, root, p),
    ensures
        ({
            let fitted = fit_sizes(nodes, rank, root);
            let out = layout(nodes, rank, root);
            let at = fitted.insert(p, fitted[p].sized(out[p].size));
            let cs = nodes[p].children@;
            &&& ranked(at, rank)
            &&& at.dom().contains(p)
            &&& at[p].children@ == cs
            &&& at[p].layout_params == nodes[p].layout_params
            &&& at[p].size == out[p].size
            &&& all_differ(cs)
            &&& held_by(nodes, fitted, p)
            &&& forall|j: int|
                0 <= j < cs.len() ==> {
                    &&& at[#[trigger] cs[j]] == fitted[cs[j]]
                    &&& at[cs[j]].layout_params == nodes[cs[j]].layout_params
                    &&& out[cs[j]].size == grow_level(at, p)[cs[j]].size
                }
        }),
{
    let fitted = fit_sizes(nodes, rank, root);
    let out = layout(nodes, rank, root);
    let at = fitted.insert(p, fitted[p].sized(out[p].size));
    let cs = nodes[p].children@;
    lemma_subtree_rank(nodes, rank, root, p);
    law_layout_in_tree(nodes, rank, root, p);
    lemma_fit_frame(nodes, rank, root);
    lemma_same_shape_ranked(nodes, fitted, rank);
    lemma_resize_same_shape(fitted, p, fitted[p].sized(out[p].size));
    lemma_same_shape_ranked(fitted, at, rank);
    assert(fitted[p].children == nodes[p].children);
    lemma_tree_below(nodes, rank, root, p);
    assert forall|i: int, j: int| 0 <= i < j < cs.len() implies cs[i] != cs[j] by {
        lemma_tree_children_differ(nodes, rank, p, i, j);
    }
    assert forall|j: int| 0 <= j < cs.len() implies {
        &&& at[#[trigger] cs[j]] == fitted[cs[j]]
        &&& at[cs[j]].layout_params == nodes[cs[j]].layout_params
        &&& out[cs[j]].size == grow_level(at, p)[cs[j]].size
    } by {
        let c = cs[j];
        assert(nodes[p].children@[j] == c);
        assert(rank[c] < rank[p]);
        assert(fitted[p].children@[j] == c);
        assert(out[c].size == share_of(fitted, p, out[p].size, j));
        assert(fitted[c].layout_params == nodes[c].layout_params);
    }
}

/// In a tree, after a layout, a child that grows across its parent's
/// direction is no larger across it than the parent's content area. A
/// child that grows along the direction is no larger along it than the
/// content area either, provided that the first pass left it no larger
/// than that: the second pass adds to a child only what the content area
/// has left.
pub proof fn law_grow_within_content(
    nodes: NodeMap,
    rank: RankMap,
    root: ElementIdx,
    p: ElementIdx,
    j: int,
)
    requires
        ranked(nodes, rank),
        nodes.dom().contains(root),
        is_tree(kids_of(nodes), rank, root),
        in_subtree(kids_of(nodes), rank, root, p),
        0 <= j < nodes[p].children@.len(),
    ensures
        ({
            let fitted = fit_sizes(nodes, rank, root);
            let out = layout(nodes, rank, root);
            let params = nodes[p].layout_params;
            let dir = params.direction;
            let child = nodes[p].children@[j];
            let inner = inner_area(out[p].size, params.padding);
            &&& nodes[child].layout_params.cross_policy(dir).grows() ==> cross_of(
                out[child].size,
                dir,
            ) <= cross_of(inner, dir)
            &&& nodes[child].layout_params.main_policy(dir).grows() && main_of(
                fitted[child].size,
                dir,
            ) <= main_of(inner, dir) ==> main_of(out[child].size, dir) <= main_of(inner, dir)
        }),
{
    let fitted = fit_sizes(nodes, rank, root);
    let out = layout(nodes, rank, root);
    let at = fitted.insert(p, fitted[p].sized(out[p].size));
    let cs = nodes[p].children@;
    lemma_layout_level(nodes, rank, root, p);
    lemma_level_within(at, rank, p);
    assert(at[cs[j]] == fitted[cs[j]]);
}

/// In a tree, after a layout, no growing child of a node with a fixed
/// extent along its direction is larger along it than the node's content
/// area, where the node has ended with the extent it declares: as the root
/// of the layout does, and every node that its own parent did not hold
/// down.
pub proof fn law_grow_within_fixed(
    nodes: NodeMap,
    rank: RankMap,
    root: ElementIdx,
    p: ElementIdx,
    j: int,
    n: u16,
)
    requires
        ranked(nodes, rank),
        nodes.dom().contains(root),
        is_tree(kids_of(nodes), rank, root),
        in_subtree(kids_of(nodes), rank, root, p),
        0 <= j < nodes[p].children@.len(),
        nodes[p].layout_params.main_policy(nodes[p].layout_params.direction) == Size::Fixed(n),
        main_of(layout(nodes, rank, root)[p].size, nodes[p].layout_params.direction) == n,
        nodes[nodes[p].children@[j]].layout_params.main_policy(
            nodes[p].layout_params.direction,
        ).grows(),
    ensures
        ({
            let out = layout(nodes, rank, root);
            let params = nodes[p].layout_params;
            let child = nodes[p].children@[j];
            main_of(out[child].size, params.direction) <= main_of(
                inner_area(out[p].size, params.padding),
                params.direction,
            )
        }),
{
    let fitted = fit_sizes(nodes, rank, root);
    let cs = nodes[p].children@;
    lemma_layout_level(nodes, rank, root, p);
    law_grow_within_content(nodes, rank, root, p, j);
    assert(fitted[cs[j]].size == clamp_child(
        own_fit_size(nodes, fitted, cs[j]),
        nodes[p].layout_params,
        inner_area(declared_size(nodes[p]), nodes[p].layout_params.padding),
    ));
}

/// In a tree, after a layout from a node with a fixed extent `n` along its
/// direction, no growing child of that node is larger along it than what
/// `n` leaves inside the padding; where the padding leaves nothing, the
/// child has no extent along it.
pub proof fn law_grow_within_root(
    nodes: NodeMap,
    rank: RankMap,
    root: ElementIdx,
    j: int,
    n: u16,
)
    requires
        ranked(nodes, rank),
        nodes.dom().contains(root),
        is_tree(kids_of(nodes), rank, root),
        0 <= j < nodes[root].children@.len(),
        nodes[root].layout_params.main_policy(nodes[root].layout_params.direction) == Size::Fixed(
            n,
        ),
        nodes[nodes[root].children@[j]].layout_params.main_policy(
            nodes[root].layout_params.direction,
        ).grows(),
    ensures
        ({
            let params = nodes[root].layout_params;
            let child = nodes[root].children@[j];
            main_of(layout(nodes, rank, root)[child].size, params.direction) <= n
                - padding_main(params.padding, params.direction) || main_of(
                layout(nodes, rank, root)[child].size,
                params.direction,
            ) == 0
        }),
{
    law_fixed_root(nodes, rank, root);
    assert(in_subtree(kids_of(nodes), rank, root, root));
    law_grow_within_fixed(nodes, rank, root, root, j, n);
}

/// In a tree, after a layout, the children of a node and the gaps between
/// them take up no more along the node's direction than the node's content
/// area, and with the padding no more than the node where the padding fits
/// into it, provided that they did not after the first pass: the second
/// pass hands out only what the content area has left. Where they took up
/// more after the first pass, the second adds nothing; it never takes
/// anything away.
pub proof fn law_children_within_parent(
    nodes: NodeMap,
    rank: RankMap,
    root: ElementIdx,
    p: ElementIdx,
)
    requires
        ranked(nodes, rank),
        nodes.dom().contains(root),
        is_tree(kids_of(nodes), rank, root),
        in_subtree(kids_of(nodes), rank, root, p),
    ensures
        ({
            let fitted = fit_sizes(nodes, rank, root);
            let out = layout(nodes, rank, root);
            let params = nodes[p].layout_params;
            let dir = params.direction;
            let cs = nodes[p].children@;
            let inner = main_of(inner_area(out[p].size, params.padding), dir);
            let spread = gaps(params.gap, cs.len());
            let came = entries_total(main_sizes(fitted, cs, dir), cs.len());
            let taken = entries_total(main_sizes(out, cs, dir), cs.len());
            &&& came + spread <= inner ==> taken + spread <= inner
            &&& came + spread <= inner && padding_main(params.padding, dir) <= main_of(
                out[p].size,
                dir,
            ) ==> taken + spread + padding_main(params.padding, dir) <= main_of(out[p].size, dir)
            &&& came + spread > inner ==> taken == came
            &&& came <= taken
        }),
{
    let fitted = fit_sizes(nodes, rank, root);
    let out = layout(nodes, rank, root);
    let at = fitted.insert(p, fitted[p].sized(out[p].size));
    let cs = nodes[p].children@;
    let dir = nodes[p].layout_params.direction;
    lemma_layout_level(nodes, rank, root, p);
    lemma_level_within(at, rank, p);
    assert(main_sizes(at, cs, dir) =~= main_sizes(fitted, cs, dir));
    assert(main_sizes(grow_level(at, p), cs, dir) =~= main_sizes(out, cs, dir));
}

/// In a tree, after a layout from a node that takes its extent along its
/// direction from its children, the node is as large along it as its
/// children, the gaps between them and its padding together, and the second
/// pass has added nothing to the children, provided that the sum stays
/// within the grid's largest length.
pub proof fn law_fitting_root_matches(nodes: NodeMap, rank: RankMap, root: ElementIdx)
    requires
        ranked(nodes, rank),
        nodes.dom().contains(root),
        is_tree(kids_of(nodes), rank, root),
        !(nodes[root].layout_params.main_policy(nodes[root].layout_params.direction) is Fixed),
        ({
            let params = nodes[root].layout_params;
            let cs = nodes[root].children@;
            entries_total(
                main_sizes(fit_sizes(nodes, rank, root), cs, params.direction),
                cs.len(),
            ) + gaps(params.gap, cs.len()) + padding_main(params.padding, params.direction)
                <= 0xffff
        }),
    ensures
        ({
            let out = layout(nodes, rank, root);
            let params = nodes[root].layout_params;
            let dir = params.direction;
            let cs = nodes[root].children@;
            let taken = entries_total(main_sizes(out, cs, dir), cs.len());
            &&& taken == entries_total(main_sizes(fit_sizes(nodes, rank, root), cs, dir), cs.len())
            &&& main_of(out[root].size, dir) == taken + gaps(params.gap, cs.len()) + padding_main(
                params.padding,
                dir,
            )
        }),
{
    let fitted = fit_sizes(nodes, rank, root);
    let params = nodes[root].layout_params;
    let dir = params.direction;
    let cs = nodes[root].children@;
    assert(in_subtree(kids_of(nodes), rank, root, root));
    law_layout_in_tree(nodes, rank, root, root);
    law_children_within_parent(nodes, rank, root, root);
    crate::bounds::lemma_extent_main(fitted, cs, cs.len(), dir);
    assert(gaps(params.gap, cs.len()) >= 0) by (nonlinear_arith);
}

/// Two children that grow in width, inside a node of fixed width `n`
/// without padding at its left and right and without a gap that lays its
/// children out side by side, each end with half of `n`, rounded down, after a layout of the
/// tree from that node, provided that neither needs more than that for
/// what it holds itself.
#[verifier::rlimit(30)]
pub proof fn law_equal_split(
    nodes: NodeMap,
    rank: RankMap,
    parent: ElementIdx,
    first: ElementIdx,
    second: ElementIdx,
    n: u16,
)
    requires
        ranked(nodes, rank),
        nodes.dom().contains(parent),
        is_tree(kids_of(nodes), rank, parent),
        nodes[parent].children@.len() == 2,
        nodes[parent].children@[0] == first,
        nodes[parent].children@[1] == second,
        nodes[parent].layout_params.width == Size::Fixed(n),
        nodes[parent].layout_params.direction == Direction::Horizontal,
        nodes[parent].layout_params.padding.left == 0,
        nodes[parent].layout_params.padding.right == 0,
        nodes[parent].layout_params.gap == 0,
        nodes[first].layout_params.width == Size::Grow,
        nodes[second].layout_params.width == Size::Grow,
        fit_sizes(nodes, rank, parent)[first].size.x <= n / 2,
        fit_sizes(nodes, rank, parent)[second].size.x <= n / 2,
    ensures
        layout(nodes, rank, parent)[first].size.x == n / 2,
        layout(nodes, rank, parent)[second].size.x == n / 2,
{
    let kids = kids_of(nodes);
    let cs = nodes[parent].children@;
    let fitted = fit_sizes(nodes, rank, parent);
    law_layout_in_tree(nodes, rank, parent, parent);
    law_fixed_root(nodes, rank, parent);
    lemma_fit_frame(nodes, rank, parent);
    lemma_same_shape_ranked(nodes, fitted, rank);
    lemma_fit_root(nodes, rank, parent);
    let out = layout(nodes, rank, parent);
    assert(fitted[parent].children@ == cs);
    assert(first != second) by {
        assert(in_subtree(kids, rank, first, first));
        assert(kids[parent] == cs);
        crate::tree::lemma_disjoint_pair(kids, rank, cs, 2, rank[parent], 0, 1, second);
    }
    assert(fitted.dom().contains(first) && fitted.dom().contains(second)) by {
        assert(nodes[parent].children@[0] == first);
        assert(nodes[parent].children@[1] == second);
    }
    let w1 = fitted[first].size.x;
    let w2 = fitted[second].size.x;
    let at = fitted.insert(parent, fitted[parent].sized(out[parent].size));
    let dir = Direction::Horizontal;
    let node = at[parent];
    assert(node.size.x == n);
    assert(at[first] == fitted[first] && at[second] == fitted[second]) by {
        assert(rank[first] < rank[parent]) by {
            assert(nodes[parent].children@[0] == first);
        }
        assert(rank[second] < rank[parent]) by {
            assert(nodes[parent].children@[1] == second);
        }
    }
    reveal_with_fuel(used_space, 3);
    reveal_with_fuel(fill_cross, 3);
    reveal_with_fuel(store_main, 3);
    let inner = inner_area(node.size, node.layout_params.padding);
    let used = used_space(at, cs, 2);
    assert(used.x == w1 + w2);
    let remaining = AxisSizes::of(leftover(node.size, used, inner), dir);
    let budget = main_budget(inner, used, node.layout_params, 2);
    assert(crate::fit::gaps(node.layout_params.gap, 2) == 0) by (nonlinear_arith)
        requires
            node.layout_params.gap == 0,
    ;
    assert(budget == n - w1 - w2);
    let crossed = fill_cross(at, cs, 2, dir, remaining.cross_axis);
    assert(crossed[first].size.x == w1 && crossed[second].size.x == w2);
    assert(crossed[first].layout_params == nodes[first].layout_params);
    assert(crossed[second].layout_params == nodes[second].layout_params);
    let flags = grow_flags(crossed, cs, dir);
    let mains = main_sizes(crossed, cs, dir);
    assert(mains =~= seq![w1, w2]);
    assert(flags =~= seq![true, true]);
    if w1 <= w2 {
        lemma_fill_pair(w1, w2, budget);
    } else {
        lemma_fill_pair(w2, w1, budget);
    }
    let filled = water_fill(mains, flags, budget);
    assert(filled[0] == n / 2 && filled[1] == n / 2);
    let level = store_main(crossed, cs, 2, dir, filled, flags);
    assert(level == grow_level(at, parent));
    assert(level[first].size.x == n / 2);
    assert(level[second].size.x == n / 2);
    assert(out[cs[0]].size == share_of(fitted, parent, out[parent].size, 0));
    assert(out[cs[1]].size == share_of(fitted, parent, out[parent].size, 1));
}

} // verus!
