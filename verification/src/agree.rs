//! Two runs of a pass agree where what they read agrees: the results of the
//! passes depend on nothing but the tree's shape, the sizes a growing node
//! with children is left with from before, and the root's position.

use crate::fit::{
    clamp_child, declared_size, fit_children, fit_sizes, lemma_fit_children_frame,
    lemma_fit_frame,
};
use crate::geometry::{inner_area, Direction, Vec2};
use crate::grow::{
    fill_cross, grow_children, grow_flags, grow_level, grow_sizes, lemma_fill_cross_frame,
    lemma_grow_children_frame, lemma_grow_frame, lemma_grow_level_frame, leftover, main_sizes,
    store_main, used_space,
};
use crate::policy::LayoutParams;
use crate::position::{
    child_position, lemma_place_children_frame, lemma_positions_frame, place_children, positions,
};
use crate::share::water_fill;
use crate::store::{
    lemma_resize_same_shape, lemma_resize_step, lemma_same_shape_ranked, lemma_same_shape_trans,
    ranked, same_shape, ElementIdx, NodeMap, RankMap, TuiElement,
};
use crate::tree::{
    in_children, in_subtree, kids_of, lemma_in_children, lemma_not_below_children,
    lemma_same_shape_kids, KidsMap,
};
use vstd::prelude::*;

verus! {

/// The two records agree in what the fit-sizing pass reads of a node's
/// size: the dimensions in which the node grows, if it has children.
pub open spec fn reads_agree(x: TuiElement, y: TuiElement) -> bool {
    x.children@.len() > 0 ==> {
        &&& x.layout_params.width is Grow ==> x.size.x == y.size.x
        &&& x.layout_params.height is Grow ==> x.size.y == y.size.y
    }
}

/// Having the same shape goes both ways.
pub proof fn lemma_same_shape_sym(a: NodeMap, b: NodeMap)
    requires
        same_shape(a, b),
    ensures
        same_shape(b, a),
{
}

/// Two fit-sizing passes over the subtree of `id` give every node of the
/// subtree the same size, if the two arenas have the same shape and agree
/// in what the pass reads.
pub proof fn lemma_fit_same(a: NodeMap, b: NodeMap, rank: RankMap, id: ElementIdx)
    requires
        same_shape(a, b),
        ranked(a, rank),
        a.dom().contains(id),
        forall|m: ElementIdx| #[trigger]
            in_subtree(kids_of(a), rank, id, m) ==> reads_agree(a[m], b[m]),
    ensures
        forall|m: ElementIdx| #[trigger]
            in_subtree(kids_of(a), rank, id, m) ==> fit_sizes(a, rank, id)[m].size == fit_sizes(
                b,
                rank,
                id,
            )[m].size,
    decreases rank[id], 1nat, 0nat,
{
    let kids = kids_of(a);
    let params = a[id].layout_params;
    let cs = a[id].children@;
    let n = cs.len();
    assert(b[id].layout_params == params && b[id].children == a[id].children);
    let size_a = declared_size(a[id]);
    let size_b = declared_size(b[id]);
    let started_a = a.insert(id, a[id].sized(size_a));
    let started_b = b.insert(id, b[id].sized(size_b));
    let ceil_a = inner_area(size_a, params.padding);
    let ceil_b = inner_area(size_b, params.padding);
    lemma_same_shape_ranked(a, b, rank);
    lemma_resize_same_shape(a, id, a[id].sized(size_a));
    lemma_resize_same_shape(b, id, b[id].sized(size_b));
    lemma_same_shape_sym(a, started_a);
    lemma_same_shape_trans(started_a, a, b);
    lemma_same_shape_trans(started_a, b, started_b);
    lemma_same_shape_ranked(a, started_a, rank);
    lemma_same_shape_ranked(b, started_b, rank);
    lemma_same_shape_kids(a, started_a);
    lemma_same_shape_kids(b, started_b);
    lemma_same_shape_kids(a, b);
    assert(kids[id] == cs);
    assert(in_subtree(kids, rank, id, id));
    assert forall|j: int| 0 <= j < n implies started_a.dom().contains(#[trigger] cs[j])
        && rank[cs[j]] < rank[id] by {
        assert(a[id].children@[j] == cs[j]);
    }
    lemma_not_below_children(a, rank, id, n);
    assert forall|m: ElementIdx| #[trigger]
        in_children(kids, rank, cs, n, rank[id], m) implies reads_agree(
        started_a[m],
        started_b[m],
    ) by {
        assert(in_subtree(kids, rank, id, m));
    }
    lemma_fit_children_same(
        started_a,
        started_b,
        rank,
        kids,
        cs,
        n,
        n,
        rank[id],
        params,
        ceil_a,
        ceil_b,
    );
    lemma_fit_children_frame(started_a, rank, cs, n, rank[id], params, ceil_a);
    lemma_fit_children_frame(started_b, rank, cs, n, rank[id], params, ceil_b);
    let after_a = fit_children(started_a, rank, cs, n, rank[id], params, ceil_a);
    let after_b = fit_children(started_b, rank, cs, n, rank[id], params, ceil_b);
    assert(after_a.0[id] == started_a[id]);
    assert(after_b.0[id] == started_b[id]);
    assert(b[id].children@ == cs);
    assert forall|m: ElementIdx| #[trigger] in_subtree(kids, rank, id, m) implies fit_sizes(
        a,
        rank,
        id,
    )[m].size == fit_sizes(b, rank, id)[m].size by {
        if m != id {
            assert(in_children(kids, rank, cs, n, rank[id], m));
        }
    }
}

/// As [`lemma_fit_same`], for the first `k` of `n` children in `cs`: the
/// two passes accumulate the same size, give the nodes below those children
/// the same sizes, and still agree in what is read of the others.
pub proof fn lemma_fit_children_same(
    a: NodeMap,
    b: NodeMap,
    rank: RankMap,
    kids: KidsMap,
    cs: Seq<ElementIdx>,
    k: nat,
    n: nat,
    bound: nat,
    parent: LayoutParams,
    ceil_a: Vec2,
    ceil_b: Vec2,
)
    requires
        same_shape(a, b),
        ranked(a, rank),
        kids == kids_of(a),
        k <= n <= cs.len(),
        forall|j: int| 0 <= j < n ==> a.dom().contains(#[trigger] cs[j]) && rank[cs[j]] < bound,
        forall|m: ElementIdx| #[trigger]
            in_children(kids, rank, cs, n, bound, m) ==> reads_agree(a[m], b[m]),
        n > 0 && parent.width is Grow ==> ceil_a.x == ceil_b.x,
        n > 0 && parent.height is Grow ==> ceil_a.y == ceil_b.y,
        parent.width is Fixed ==> ceil_a.x == ceil_b.x,
        parent.height is Fixed ==> ceil_a.y == ceil_b.y,
    ensures
        fit_children(a, rank, cs, k, bound, parent, ceil_a).1 == fit_children(
            b,
            rank,
            cs,
            k,
            bound,
            parent,
            ceil_b,
        ).1,
        forall|m: ElementIdx| #[trigger]
            in_children(kids, rank, cs, k, bound, m) ==> fit_children(
                a,
                rank,
                cs,
                k,
                bound,
                parent,
                ceil_a,
            ).0[m].size == fit_children(b, rank, cs, k, bound, parent, ceil_b).0[m].size,
        forall|m: ElementIdx| #[trigger]
            in_children(kids, rank, cs, n, bound, m) ==> reads_agree(
                fit_children(a, rank, cs, k, bound, parent, ceil_a).0[m],
                fit_children(b, rank, cs, k, bound, parent, ceil_b).0[m],
            ),
    decreases bound, 0nat, k,
{
    if k > 0 {
        let prev = (k - 1) as nat;
        lemma_fit_children_same(a, b, rank, kids, cs, prev, n, bound, parent, ceil_a, ceil_b);
        lemma_same_shape_ranked(a, b, rank);
        lemma_same_shape_kids(a, b);
        lemma_fit_children_frame(a, rank, cs, prev, bound, parent, ceil_a);
        lemma_fit_children_frame(b, rank, cs, prev, bound, parent, ceil_b);
        let before_a = fit_children(a, rank, cs, prev, bound, parent, ceil_a).0;
        let before_b = fit_children(b, rank, cs, prev, bound, parent, ceil_b).0;
        let c = cs[k - 1];
        lemma_same_shape_sym(a, before_a);
        lemma_same_shape_trans(before_a, a, b);
        lemma_same_shape_trans(before_a, b, before_b);
        lemma_same_shape_ranked(a, before_a, rank);
        lemma_same_shape_ranked(b, before_b, rank);
        lemma_same_shape_kids(a, before_a);
        lemma_same_shape_kids(b, before_b);
        assert forall|m: ElementIdx| #[trigger]
            in_subtree(kids, rank, c, m) implies reads_agree(before_a[m], before_b[m]) by {
            lemma_in_children(kids, rank, cs, n, bound, m);
            assert(in_children(kids, rank, cs, n, bound, m));
        }
        lemma_fit_same(before_a, before_b, rank, c);
        lemma_fit_frame(before_a, rank, c);
        lemma_fit_frame(before_b, rank, c);
        let fitted_a = fit_sizes(before_a, rank, c);
        let fitted_b = fit_sizes(before_b, rank, c);
        assert(in_subtree(kids, rank, c, c));
        assert(fitted_a[c].size == fitted_b[c].size);
        let size_a = clamp_child(fitted_a[c].size, parent, ceil_a);
        let size_b = clamp_child(fitted_b[c].size, parent, ceil_b);
        assert(size_a == size_b);
        let result_a = fitted_a.insert(c, fitted_a[c].sized(size_a));
        let result_b = fitted_b.insert(c, fitted_b[c].sized(size_b));
        assert(result_a == fit_children(a, rank, cs, k, bound, parent, ceil_a).0);
        assert(result_b == fit_children(b, rank, cs, k, bound, parent, ceil_b).0);
        assert forall|m: ElementIdx| #[trigger]
            in_children(kids, rank, cs, k, bound, m) implies result_a[m].size
            == result_b[m].size by {
            if in_subtree(kids, rank, c, m) {
            } else {
                assert(fitted_a[m] == before_a[m]);
                assert(fitted_b[m] == before_b[m]);
                assert(in_children(kids, rank, cs, prev, bound, m));
            }
        }
        assert forall|m: ElementIdx| #[trigger]
            in_children(kids, rank, cs, n, bound, m) implies reads_agree(
            result_a[m],
            result_b[m],
        ) by {
            assert(a.dom().contains(m)) by {
                lemma_in_children(kids, rank, cs, n, bound, m);
                let j = choose|j: int|
                    0 <= j < n && rank[cs[j]] < bound && in_subtree(
                        kids,
                        rank,
                        #[trigger] cs[j],
                        m,
                    );
                crate::tree::lemma_subtree_rank(a, rank, cs[j], m);
            }
            assert(fitted_a[m].children == before_a[m].children);
            assert(fitted_b[m].children == before_b[m].children);
            assert(fitted_a[m].layout_params == before_a[m].layout_params);
            assert(fitted_a[m].layout_params == fitted_b[m].layout_params);
            assert(fitted_a[m].children == fitted_b[m].children);
            if in_subtree(kids, rank, c, m) {
            } else {
                assert(fitted_a[m] == before_a[m]);
                assert(fitted_b[m] == before_b[m]);
            }
        }
    }
}

/// The two arenas give the same sizes to every node in which they did so
/// before.
pub open spec fn sizes_kept(a: NodeMap, b: NodeMap, ra: NodeMap, rb: NodeMap) -> bool {
    forall|m: ElementIdx|
        #![trigger ra[m]]
        #![trigger rb[m]]
        a.dom().contains(m) && a[m].size == b[m].size ==> ra[m].size == rb[m].size
}

/// Children of the same sizes use the same space.
pub proof fn lemma_used_space_same(a: NodeMap, b: NodeMap, cs: Seq<ElementIdx>, k: nat)
    requires
        k <= cs.len(),
        forall|j: int| 0 <= j < k ==> a[#[trigger] cs[j]].size == b[cs[j]].size,
    ensures
        used_space(a, cs, k) == used_space(b, cs, k),
    decreases k,
{
    if k > 0 {
        lemma_used_space_same(a, b, cs, (k - 1) as nat);
    }
}

/// Filling the cross axis of children of the same sizes keeps the two
/// arenas in agreement on sizes.
pub proof fn lemma_fill_cross_same(
    a: NodeMap,
    b: NodeMap,
    cs: Seq<ElementIdx>,
    k: nat,
    dir: Direction,
    cross: u16,
)
    requires
        same_shape(a, b),
        k <= cs.len(),
        forall|j: int|
            0 <= j < k ==> a.dom().contains(#[trigger] cs[j]) && a[cs[j]].size == b[cs[j]].size,
    ensures
        sizes_kept(a, b, fill_cross(a, cs, k, dir, cross), fill_cross(b, cs, k, dir, cross)),
    decreases k,
{
    if k > 0 {
        let prev = (k - 1) as nat;
        lemma_fill_cross_same(a, b, cs, prev, dir, cross);
        lemma_fill_cross_frame(a, cs, prev, dir, cross);
        lemma_fill_cross_frame(b, cs, prev, dir, cross);
        let before_a = fill_cross(a, cs, prev, dir, cross);
        let before_b = fill_cross(b, cs, prev, dir, cross);
        let c = cs[k - 1];
        assert(before_a[c].layout_params == a[c].layout_params);
        assert(before_b[c].layout_params == b[c].layout_params);
        assert(a[c].layout_params == b[c].layout_params);
        assert(before_a[c].size == before_b[c].size);
    }
}

/// Storing the same main-axis sizes keeps the two arenas in agreement on
/// sizes.
pub proof fn lemma_store_main_same(
    a: NodeMap,
    b: NodeMap,
    cs: Seq<ElementIdx>,
    k: nat,
    dir: Direction,
    sizes: Seq<u16>,
    flags: Seq<bool>,
)
    requires
        same_shape(a, b),
        k <= cs.len(),
        forall|j: int|
            0 <= j < k ==> a.dom().contains(#[trigger] cs[j]) && a[cs[j]].size == b[cs[j]].size,
        forall|j: int|
            0 <= j < k && flags[j] ==> a[#[trigger] cs[j]].layout_params.main_policy(dir).grows(),
    ensures
        sizes_kept(
            a,
            b,
            store_main(a, cs, k, dir, sizes, flags),
            store_main(b, cs, k, dir, sizes, flags),
        ),
    decreases k,
{
    if k > 0 {
        let prev = (k - 1) as nat;
        lemma_store_main_same(a, b, cs, prev, dir, sizes, flags);
        let before_a = store_main(a, cs, prev, dir, sizes, flags);
        let before_b = store_main(b, cs, prev, dir, sizes, flags);
        let c = cs[k - 1];
        assert(before_a[c].size == before_b[c].size);
    }
}

/// Two nodes of the same size whose children have the same sizes share
/// out the same: wherever the two arenas agreed in a node's size, they
/// still do.
pub proof fn lemma_grow_level_same(a: NodeMap, b: NodeMap, rank: RankMap, id: ElementIdx)
    requires
        same_shape(a, b),
        ranked(a, rank),
        a.dom().contains(id),
        a[id].size == b[id].size,
        forall|j: int|
            0 <= j < a[id].children@.len() ==> a[#[trigger] a[id].children@[j]].size
                == b[a[id].children@[j]].size,
    ensures
        sizes_kept(a, b, grow_level(a, id), grow_level(b, id)),
{
    let node = a[id];
    let dir = node.layout_params.direction;
    let cs = node.children@;
    let n = cs.len();
    assert(b[id].layout_params == node.layout_params && b[id].children == a[id].children);
    let inner = inner_area(node.size, node.layout_params.padding);
    assert forall|j: int| 0 <= j < n implies a.dom().contains(#[trigger] cs[j]) && a[cs[j]].size
        == b[cs[j]].size by {
        assert(a[id].children@[j] == cs[j]);
    }
    lemma_used_space_same(a, b, cs, n);
    let used = used_space(a, cs, n);
    let remaining = crate::axis::AxisSizes::of(leftover(node.size, used, inner), dir);
    lemma_fill_cross_same(a, b, cs, n, dir, remaining.cross_axis);
    lemma_fill_cross_frame(a, cs, n, dir, remaining.cross_axis);
    lemma_fill_cross_frame(b, cs, n, dir, remaining.cross_axis);
    let crossed_a = fill_cross(a, cs, n, dir, remaining.cross_axis);
    let crossed_b = fill_cross(b, cs, n, dir, remaining.cross_axis);
    lemma_same_shape_sym(a, crossed_a);
    lemma_same_shape_trans(crossed_a, a, b);
    lemma_same_shape_trans(crossed_a, b, crossed_b);
    assert forall|j: int| 0 <= j < n implies crossed_a[#[trigger] cs[j]].size
        == crossed_b[cs[j]].size && crossed_a[cs[j]].layout_params
        == crossed_b[cs[j]].layout_params by {}
    assert(main_sizes(crossed_a, cs, dir) =~= main_sizes(crossed_b, cs, dir));
    assert(grow_flags(crossed_a, cs, dir) =~= grow_flags(crossed_b, cs, dir));
    let flags = grow_flags(crossed_a, cs, dir);
    let budget = crate::grow::main_budget(inner, used, node.layout_params, n);
    let filled = water_fill(main_sizes(crossed_a, cs, dir), flags, budget);
    lemma_store_main_same(crossed_a, crossed_b, cs, n, dir, filled, flags);
    let grown_a = store_main(crossed_a, cs, n, dir, filled, flags);
    let grown_b = store_main(crossed_b, cs, n, dir, filled, flags);
    assert(grown_a == grow_level(a, id));
    assert(grown_b == grow_level(b, id));
    assert forall|m: ElementIdx| a.dom().contains(m) && a[m].size == b[m].size implies (
    #[trigger] grown_a[m]).size == grown_b[m].size by {
        assert(crossed_a[m].size == crossed_b[m].size);
    }
}

/// Two grow-distribution passes over the subtree of `id` give every node of
/// the subtree the same size, if the two arenas have the same shape and the
/// same sizes in the subtree.
pub proof fn lemma_grow_same(a: NodeMap, b: NodeMap, rank: RankMap, id: ElementIdx)
    requires
        same_shape(a, b),
        ranked(a, rank),
        a.dom().contains(id),
        forall|m: ElementIdx| #[trigger]
            in_subtree(kids_of(a), rank, id, m) ==> a[m].size == b[m].size,
    ensures
        forall|m: ElementIdx| #[trigger]
            in_subtree(kids_of(a), rank, id, m) ==> grow_sizes(a, rank, id)[m].size == grow_sizes(
                b,
                rank,
                id,
            )[m].size,
    decreases rank[id], 1nat, 0nat,
{
    let kids = kids_of(a);
    let cs = a[id].children@;
    let n = cs.len();
    assert(b[id].children == a[id].children);
    lemma_same_shape_ranked(a, b, rank);
    lemma_same_shape_kids(a, b);
    assert(kids[id] == cs);
    assert(in_subtree(kids, rank, id, id));
    assert forall|j: int| 0 <= j < n implies a.dom().contains(#[trigger] cs[j]) && rank[cs[j]]
        < rank[id] && a[cs[j]].size == b[cs[j]].size by {
        assert(a[id].children@[j] == cs[j]);
        crate::tree::lemma_child_in_subtree(a, rank, id, j);
    }
    lemma_grow_level_same(a, b, rank, id);
    lemma_grow_level_frame(a, rank, id);
    lemma_grow_level_frame(b, rank, id);
    let level_a = grow_level(a, id);
    let level_b = grow_level(b, id);
    lemma_same_shape_sym(a, level_a);
    lemma_same_shape_trans(level_a, a, b);
    lemma_same_shape_trans(level_a, b, level_b);
    lemma_same_shape_ranked(a, level_a, rank);
    lemma_same_shape_ranked(b, level_b, rank);
    lemma_same_shape_kids(a, level_a);
    assert forall|m: ElementIdx| #[trigger]
        in_children(kids, rank, cs, n, rank[id], m) implies level_a[m].size
        == level_b[m].size by {
        assert(in_subtree(kids, rank, id, m));
        crate::tree::lemma_subtree_rank(a, rank, id, m);
    }
    lemma_grow_children_same(level_a, level_b, rank, kids, cs, n, n, rank[id]);
    lemma_grow_children_frame(level_a, rank, cs, n, rank[id]);
    lemma_grow_children_frame(level_b, rank, cs, n, rank[id]);
    lemma_grow_frame(a, rank, id);
    lemma_grow_frame(b, rank, id);
    assert(grow_sizes(a, rank, id) == grow_children(level_a, rank, cs, n, rank[id]));
    assert(b[id].children@ == cs);
    assert(grow_sizes(b, rank, id) == grow_children(level_b, rank, cs, n, rank[id]));
    assert forall|m: ElementIdx| #[trigger] in_subtree(kids, rank, id, m) implies grow_sizes(
        a,
        rank,
        id,
    )[m].size == grow_sizes(b, rank, id)[m].size by {
        if m != id {
            assert(in_children(kids, rank, cs, n, rank[id], m));
        }
    }
}

/// As [`lemma_grow_same`], for the first `k` of `n` children in `cs`.
pub proof fn lemma_grow_children_same(
    a: NodeMap,
    b: NodeMap,
    rank: RankMap,
    kids: KidsMap,
    cs: Seq<ElementIdx>,
    k: nat,
    n: nat,
    bound: nat,
)
    requires
        same_shape(a, b),
        ranked(a, rank),
        kids == kids_of(a),
        k <= n <= cs.len(),
        forall|j: int| 0 <= j < n ==> a.dom().contains(#[trigger] cs[j]) && rank[cs[j]] < bound,
        forall|m: ElementIdx| #[trigger]
            in_children(kids, rank, cs, n, bound, m) ==> a[m].size == b[m].size,
    ensures
        forall|m: ElementIdx| #[trigger]
            in_children(kids, rank, cs, n, bound, m) ==> grow_children(
                a,
                rank,
                cs,
                k,
                bound,
            )[m].size == grow_children(b, rank, cs, k, bound)[m].size,
    decreases bound, 0nat, k,
{
    if k > 0 {
        let prev = (k - 1) as nat;
        lemma_grow_children_same(a, b, rank, kids, cs, prev, n, bound);
        lemma_same_shape_ranked(a, b, rank);
        lemma_same_shape_kids(a, b);
        lemma_grow_children_frame(a, rank, cs, prev, bound);
        lemma_grow_children_frame(b, rank, cs, prev, bound);
        let before_a = grow_children(a, rank, cs, prev, bound);
        let before_b = grow_children(b, rank, cs, prev, bound);
        let c = cs[k - 1];
        lemma_same_shape_sym(a, before_a);
        lemma_same_shape_trans(before_a, a, b);
        lemma_same_shape_trans(before_a, b, before_b);
        lemma_same_shape_ranked(a, before_a, rank);
        lemma_same_shape_ranked(b, before_b, rank);
        lemma_same_shape_kids(a, before_a);
        lemma_same_shape_kids(b, before_b);
        assert forall|m: ElementIdx| #[trigger]
            in_subtree(kids, rank, c, m) implies before_a[m].size == before_b[m].size by {
            lemma_in_children(kids, rank, cs, n, bound, m);
            assert(in_children(kids, rank, cs, n, bound, m));
        }
        lemma_grow_same(before_a, before_b, rank, c);
        lemma_grow_frame(before_a, rank, c);
        lemma_grow_frame(before_b, rank, c);
        let result_a = grow_sizes(before_a, rank, c);
        let result_b = grow_sizes(before_b, rank, c);
        assert forall|m: ElementIdx| #[trigger]
            in_children(kids, rank, cs, n, bound, m) implies result_a[m].size
            == result_b[m].size by {
            if !in_subtree(kids, rank, c, m) {
                assert(result_a[m] == before_a[m]);
                assert(result_b[m] == before_b[m]);
            }
        }
    }
}

/// Two position passes over the subtree of `id` place every node of the
/// subtree at the same position, if the two arenas have the same shape,
/// the same sizes in the subtree, and `id` at the same position.
pub proof fn lemma_positions_same(a: NodeMap, b: NodeMap, rank: RankMap, id: ElementIdx)
    requires
        same_shape(a, b),
        ranked(a, rank),
        a.dom().contains(id),
        a[id].position == b[id].position,
        forall|m: ElementIdx| #[trigger]
            in_subtree(kids_of(a), rank, id, m) ==> a[m].size == b[m].size,
    ensures
        forall|m: ElementIdx| #[trigger]
            in_subtree(kids_of(a), rank, id, m) ==> positions(a, rank, id)[m].position
                == positions(b, rank, id)[m].position,
    decreases rank[id], 1nat, 0nat,
{
    let kids = kids_of(a);
    let cs = a[id].children@;
    let n = cs.len();
    assert(b[id].children == a[id].children && b[id].layout_params == a[id].layout_params);
    lemma_same_shape_ranked(a, b, rank);
    lemma_same_shape_kids(a, b);
    assert(kids[id] == cs);
    assert forall|j: int| 0 <= j < n implies a.dom().contains(#[trigger] cs[j]) && rank[cs[j]]
        < rank[id] by {
        assert(a[id].children@[j] == cs[j]);
    }
    assert forall|m: ElementIdx| #[trigger]
        in_children(kids, rank, cs, n, rank[id], m) implies a[m].size == b[m].size by {
        assert(in_subtree(kids, rank, id, m));
    }
    lemma_place_children_same(
        a,
        b,
        rank,
        kids,
        cs,
        n,
        n,
        rank[id],
        a[id].position,
        a[id].layout_params,
    );
    lemma_positions_frame(a, rank, id);
    lemma_positions_frame(b, rank, id);
    assert forall|m: ElementIdx| #[trigger] in_subtree(kids, rank, id, m) implies positions(
        a,
        rank,
        id,
    )[m].position == positions(b, rank, id)[m].position by {
        if m != id {
            assert(in_children(kids, rank, cs, n, rank[id], m));
        }
    }
}

/// As [`lemma_positions_same`], for the first `k` of `n` children in `cs`.
pub proof fn lemma_place_children_same(
    a: NodeMap,
    b: NodeMap,
    rank: RankMap,
    kids: KidsMap,
    cs: Seq<ElementIdx>,
    k: nat,
    n: nat,
    bound: nat,
    origin: Vec2,
    parent: LayoutParams,
)
    requires
        same_shape(a, b),
        ranked(a, rank),
        kids == kids_of(a),
        k <= n <= cs.len(),
        forall|j: int| 0 <= j < n ==> a.dom().contains(#[trigger] cs[j]) && rank[cs[j]] < bound,
        forall|m: ElementIdx| #[trigger]
            in_children(kids, rank, cs, n, bound, m) ==> a[m].size == b[m].size,
    ensures
        place_children(a, rank, cs, k, bound, origin, parent).1 == place_children(
            b,
            rank,
            cs,
            k,
            bound,
            origin,
            parent,
        ).1,
        forall|m: ElementIdx| #[trigger]
            in_children(kids, rank, cs, k, bound, m) ==> place_children(
                a,
                rank,
                cs,
                k,
                bound,
                origin,
                parent,
            ).0[m].position == place_children(b, rank, cs, k, bound, origin, parent).0[m].position,
    decreases bound, 0nat, k,
{
    if k > 0 {
        let prev = (k - 1) as nat;
        lemma_place_children_same(a, b, rank, kids, cs, prev, n, bound, origin, parent);
        lemma_same_shape_ranked(a, b, rank);
        lemma_same_shape_kids(a, b);
        lemma_place_children_frame(a, rank, cs, prev, bound, origin, parent);
        lemma_place_children_frame(b, rank, cs, prev, bound, origin, parent);
        let (before_a, offset) = place_children(a, rank, cs, prev, bound, origin, parent);
        let before_b = place_children(b, rank, cs, prev, bound, origin, parent).0;
        let c = cs[k - 1];
        let position = child_position(origin, offset, parent.padding, parent.direction);
        let placed_a = before_a.insert(c, before_a[c].placed(position));
        let placed_b = before_b.insert(c, before_b[c].placed(position));
        lemma_resize_step(a, before_a, c, before_a[c].placed(position));
        lemma_resize_step(b, before_b, c, before_b[c].placed(position));
        lemma_same_shape_sym(a, placed_a);
        lemma_same_shape_trans(placed_a, a, b);
        lemma_same_shape_trans(placed_a, b, placed_b);
        lemma_same_shape_ranked(a, placed_a, rank);
        lemma_same_shape_ranked(b, placed_b, rank);
        lemma_same_shape_kids(a, placed_a);
        lemma_same_shape_kids(b, placed_b);
        assert(in_subtree(kids, rank, c, c));
        assert forall|m: ElementIdx| #[trigger]
            in_subtree(kids, rank, c, m) implies placed_a[m].size == placed_b[m].size by {
            lemma_in_children(kids, rank, cs, n, bound, m);
            assert(in_children(kids, rank, cs, n, bound, m));
            crate::tree::lemma_subtree_rank(a, rank, c, m);
            assert(before_a[m].size == a[m].size);
            assert(before_b[m].size == b[m].size);
        }
        lemma_positions_same(placed_a, placed_b, rank, c);
        lemma_positions_frame(placed_a, rank, c);
        lemma_positions_frame(placed_b, rank, c);
        let result_a = positions(placed_a, rank, c);
        let result_b = positions(placed_b, rank, c);
        assert(result_a == place_children(a, rank, cs, k, bound, origin, parent).0);
        assert(result_b == place_children(b, rank, cs, k, bound, origin, parent).0);
        assert(placed_a[c].size == placed_b[c].size);
        assert forall|m: ElementIdx| #[trigger]
            in_children(kids, rank, cs, k, bound, m) implies result_a[m].position
            == result_b[m].position by {
            if !in_subtree(kids, rank, c, m) {
                assert(result_a[m] == placed_a[m]);
                assert(result_b[m] == placed_b[m]);
                assert(in_children(kids, rank, cs, prev, bound, m));
            }
        }
    }
}

} // verus!
