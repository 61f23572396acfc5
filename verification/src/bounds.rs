//! How far a node's sharing-out takes its children: a child that grows is
//! held to the node's content area, and the children together get no more
//! than the content area has left beside them and the gaps.

use crate::axis::{cross_of, main_of, AxisSizes};
use crate::fit::{children_extent, gaps};
use crate::geometry::{cap16, inner_area, Direction};
use crate::grow::{
    fill_cross, grow_flags, grow_level, leftover, main_budget, main_sizes, store_main, used_space,
};
use crate::share::{
    entries_total, law_fill_entry_within_budget, law_fill_only_raises,
    law_fill_total_within_budget, lemma_total_holds_entry, water_fill,
};
use crate::store::{ranked, ElementIdx, NodeMap, RankMap};
use crate::tree::{lemma_listed, listed};
use vstd::prelude::*;

verus! {

/// Whether no node stands twice in `cs`.
pub open spec fn all_differ(cs: Seq<ElementIdx>) -> bool {
    forall|i: int, j: int| 0 <= i < j < cs.len() ==> cs[i] != cs[j]
}

/// Filling the cross axis keeps every node's parameters and its extent
/// along `dir`; across `dir`, a listed node that grows in it has the given
/// extent, and every other node keeps its own.
pub proof fn lemma_fill_cross_sizes(
    nodes: NodeMap,
    cs: Seq<ElementIdx>,
    k: nat,
    dir: Direction,
    cross: u16,
)
    requires
        k <= cs.len(),
    ensures
        forall|m: ElementIdx|
            #![trigger fill_cross(nodes, cs, k, dir, cross)[m]]
            {
                let after = fill_cross(nodes, cs, k, dir, cross)[m];
                &&& after.layout_params == nodes[m].layout_params
                &&& main_of(after.size, dir) == main_of(nodes[m].size, dir)
                &&& cross_of(after.size, dir) == (if listed(cs, k, m)
                    && nodes[m].layout_params.cross_policy(dir).grows() {
                    cross
                } else {
                    cross_of(nodes[m].size, dir)
                })
            },
    decreases k,
{
    if k > 0 {
        lemma_fill_cross_sizes(nodes, cs, (k - 1) as nat, dir, cross);
        let before = fill_cross(nodes, cs, (k - 1) as nat, dir, cross);
        let c = cs[k - 1];
        assert forall|m: ElementIdx|
            #![trigger fill_cross(nodes, cs, k, dir, cross)[m]]
            {
                let after = fill_cross(nodes, cs, k, dir, cross)[m];
                &&& after.layout_params == nodes[m].layout_params
                &&& main_of(after.size, dir) == main_of(nodes[m].size, dir)
                &&& cross_of(after.size, dir) == (if listed(cs, k, m)
                    && nodes[m].layout_params.cross_policy(dir).grows() {
                    cross
                } else {
                    cross_of(nodes[m].size, dir)
                })
            } by {
            assert(before[m].layout_params == nodes[m].layout_params);
            assert(before[c].layout_params == nodes[c].layout_params);
        }
    }
}

/// Storing the shares keeps every node's extent across `dir`; along `dir`,
/// each of the listed nodes, none of them listed twice, has its share where
/// it is marked to grow and its own extent where it is not.
pub proof fn lemma_store_main_sizes(
    nodes: NodeMap,
    cs: Seq<ElementIdx>,
    k: nat,
    dir: Direction,
    sizes: Seq<u16>,
    flags: Seq<bool>,
)
    requires
        k <= cs.len(),
        all_differ(cs),
    ensures
        forall|m: ElementIdx|
            #![trigger store_main(nodes, cs, k, dir, sizes, flags)[m]]
            {
                let after = store_main(nodes, cs, k, dir, sizes, flags)[m];
                &&& cross_of(after.size, dir) == cross_of(nodes[m].size, dir)
                &&& !listed(cs, k, m) ==> after == nodes[m]
            },
        forall|j: int|
            0 <= j < k ==> main_of(
                store_main(nodes, cs, k, dir, sizes, flags)[#[trigger] cs[j]].size,
                dir,
            ) == (if flags[j] {
                sizes[j]
            } else {
                main_of(nodes[cs[j]].size, dir)
            }),
    decreases k,
{
    if k > 0 {
        lemma_store_main_sizes(nodes, cs, (k - 1) as nat, dir, sizes, flags);
        let before = store_main(nodes, cs, (k - 1) as nat, dir, sizes, flags);
        let after = store_main(nodes, cs, k, dir, sizes, flags);
        let c = cs[k - 1];
        lemma_listed(cs, (k - 1) as nat, c);
        assert(!listed(cs, (k - 1) as nat, c)) by {
            if listed(cs, (k - 1) as nat, c) {
                let j = choose|j: int| 0 <= j < k - 1 && #[trigger] cs[j] == c;
                assert(cs[j] != cs[k - 1]);
            }
        }
        assert(before[c] == nodes[c]);
        assert forall|m: ElementIdx|
            #![trigger store_main(nodes, cs, k, dir, sizes, flags)[m]]
            {
                let after = store_main(nodes, cs, k, dir, sizes, flags)[m];
                &&& cross_of(after.size, dir) == cross_of(nodes[m].size, dir)
                &&& !listed(cs, k, m) ==> after == nodes[m]
            } by {
            assert(cross_of(before[m].size, dir) == cross_of(nodes[m].size, dir));
        }
        assert forall|j: int| 0 <= j < k implies main_of(after[#[trigger] cs[j]].size, dir) == (
        if flags[j] {
            sizes[j]
        } else {
            main_of(nodes[cs[j]].size, dir)
        }) by {
            if j < k - 1 {
                assert(cs[j] != cs[k - 1]);
                assert(after[cs[j]] == before[cs[j]]);
            }
        }
    }
}

/// What the first `k` children use along `dir` is what their extents along
/// it add up to, up to the grid's largest length.
pub proof fn lemma_used_main(nodes: NodeMap, cs: Seq<ElementIdx>, k: nat, dir: Direction)
    requires
        k <= cs.len(),
    ensures
        main_of(used_space(nodes, cs, k), dir) == cap16(
            entries_total(main_sizes(nodes, cs, dir), k),
        ),
        0 <= entries_total(main_sizes(nodes, cs, dir), k),
    decreases k,
{
    if k > 0 {
        lemma_used_main(nodes, cs, (k - 1) as nat, dir);
        let mains = main_sizes(nodes, cs, dir);
        assert(mains[k - 1] == main_of(nodes[cs[k - 1]].size, dir));
    }
}

/// What the first `k` children need along `dir` is what their extents
/// along it add up to, up to the grid's largest length.
pub proof fn lemma_extent_main(nodes: NodeMap, cs: Seq<ElementIdx>, k: nat, dir: Direction)
    requires
        k <= cs.len(),
    ensures
        children_extent(nodes, cs, k, dir).main_axis == cap16(
            entries_total(main_sizes(nodes, cs, dir), k),
        ),
        0 <= entries_total(main_sizes(nodes, cs, dir), k),
    decreases k,
{
    if k > 0 {
        lemma_extent_main(nodes, cs, (k - 1) as nat, dir);
        let mains = main_sizes(nodes, cs, dir);
        assert(mains[k - 1] == main_of(nodes[cs[k - 1]].size, dir));
    }
}

/// After a node whose children all differ has shared out its leftover
/// space, each child has along the node's direction what the fair
/// distribution gave its place, and across it the cross-axis remainder
/// where it grows in that, its own extent where it does not.
pub proof fn lemma_level_sizes(nodes: NodeMap, rank: RankMap, p: ElementIdx)
    requires
        ranked(nodes, rank),
        nodes.dom().contains(p),
        all_differ(nodes[p].children@),
    ensures
        ({
            let node = nodes[p];
            let dir = node.layout_params.direction;
            let cs = node.children@;
            let inner = inner_area(node.size, node.layout_params.padding);
            let used = used_space(nodes, cs, cs.len());
            let remaining = AxisSizes::of(leftover(node.size, used, inner), dir);
            let budget = main_budget(inner, used, node.layout_params, cs.len());
            let filled = water_fill(main_sizes(nodes, cs, dir), grow_flags(nodes, cs, dir), budget);
            let level = grow_level(nodes, p);
            forall|j: int|
                0 <= j < cs.len() ==> {
                    &&& main_of(level[#[trigger] cs[j]].size, dir) == filled[j]
                    &&& cross_of(level[cs[j]].size, dir) == (if nodes[cs[j]]
                        .layout_params.cross_policy(dir).grows() {
                        remaining.cross_axis
                    } else {
                        cross_of(nodes[cs[j]].size, dir)
                    })
                }
        }),
{
    let node = nodes[p];
    let dir = node.layout_params.direction;
    let cs = node.children@;
    let n = cs.len();
    let inner = inner_area(node.size, node.layout_params.padding);
    let used = used_space(nodes, cs, n);
    let remaining = AxisSizes::of(leftover(node.size, used, inner), dir);
    let budget = main_budget(inner, used, node.layout_params, n);
    let crossed = fill_cross(nodes, cs, n, dir, remaining.cross_axis);
    lemma_fill_cross_sizes(nodes, cs, n, dir, remaining.cross_axis);
    let flags = grow_flags(crossed, cs, dir);
    let mains = main_sizes(crossed, cs, dir);
    assert(flags =~= grow_flags(nodes, cs, dir));
    assert(mains =~= main_sizes(nodes, cs, dir));
    let filled = water_fill(mains, flags, budget);
    law_fill_only_raises(mains, flags, budget);
    lemma_store_main_sizes(crossed, cs, n, dir, filled, flags);
    let level = store_main(crossed, cs, n, dir, filled, flags);
    assert(level == grow_level(nodes, p));
    assert forall|j: int| 0 <= j < n implies {
        &&& main_of(level[#[trigger] cs[j]].size, dir) == filled[j]
        &&& cross_of(level[cs[j]].size, dir) == (if nodes[cs[j]].layout_params.cross_policy(
            dir,
        ).grows() {
            remaining.cross_axis
        } else {
            cross_of(nodes[cs[j]].size, dir)
        })
    } by {
        let c = cs[j];
        lemma_listed(cs, n, c);
        assert(mains[j] == main_of(crossed[c].size, dir));
        assert(cross_of(level[c].size, dir) == cross_of(crossed[c].size, dir));
    }
}

/// After a node whose children all differ has shared out its leftover
/// space: a child that grows across the node's direction is no larger
/// across it than the node's content area; a child that grows along it,
/// and came no larger along it than the content area, is still no larger;
/// and the children with the gaps between them take up no more along it
/// than the content area, or than they came with where that was more, and
/// no less than they came with.
pub proof fn lemma_level_within(nodes: NodeMap, rank: RankMap, p: ElementIdx)
    requires
        ranked(nodes, rank),
        nodes.dom().contains(p),
        all_differ(nodes[p].children@),
    ensures
        ({
            let node = nodes[p];
            let dir = node.layout_params.direction;
            let cs = node.children@;
            let inner = inner_area(node.size, node.layout_params.padding);
            let level = grow_level(nodes, p);
            let spread = gaps(node.layout_params.gap, cs.len());
            let came = entries_total(main_sizes(nodes, cs, dir), cs.len());
            &&& forall|j: int|
                0 <= j < cs.len() && nodes[#[trigger] cs[j]].layout_params.cross_policy(
                    dir,
                ).grows() ==> cross_of(level[cs[j]].size, dir) <= cross_of(inner, dir)
            &&& forall|j: int|
                0 <= j < cs.len() && nodes[#[trigger] cs[j]].layout_params.main_policy(
                    dir,
                ).grows() && main_of(nodes[cs[j]].size, dir) <= main_of(inner, dir) ==> main_of(
                    level[cs[j]].size,
                    dir,
                ) <= main_of(inner, dir)
            &&& entries_total(main_sizes(level, cs, dir), cs.len()) + spread <= (if came + spread
                <= main_of(inner, dir) {
                main_of(inner, dir) as int
            } else {
                came + spread
            })
            &&& came <= entries_total(main_sizes(level, cs, dir), cs.len())
        }),
{
    let node = nodes[p];
    let dir = node.layout_params.direction;
    let cs = node.children@;
    let n = cs.len();
    let inner = inner_area(node.size, node.layout_params.padding);
    let used = used_space(nodes, cs, n);
    let budget = main_budget(inner, used, node.layout_params, n);
    let mains = main_sizes(nodes, cs, dir);
    let flags = grow_flags(nodes, cs, dir);
    let filled = water_fill(mains, flags, budget);
    let level = grow_level(nodes, p);
    let spread = gaps(node.layout_params.gap, n);
    let came = entries_total(mains, n);
    lemma_level_sizes(nodes, rank, p);
    lemma_used_main(nodes, cs, n, dir);
    law_fill_only_raises(mains, flags, budget);
    law_fill_total_within_budget(mains, flags, budget);
    assert(spread >= 0) by (nonlinear_arith)
        requires
            spread == gaps(node.layout_params.gap, n),
    ;
    assert(main_sizes(level, cs, dir) =~= filled);
    assert forall|j: int|
        0 <= j < n && nodes[#[trigger] cs[j]].layout_params.main_policy(dir).grows() && main_of(
            nodes[cs[j]].size,
            dir,
        ) <= main_of(inner, dir) implies main_of(level[cs[j]].size, dir) <= main_of(
        inner,
        dir,
    ) by {
        law_fill_entry_within_budget(mains, flags, budget, j);
        lemma_total_holds_entry(mains, n, j);
        assert(mains[j] == main_of(nodes[cs[j]].size, dir));
    }
}

} // verus!
