//! The render traversal: pre-order, every node's content is painted into the
//! part of the node's rectangle that lies on the surface.

use crate::geometry::{lemma_intersection_within, Region};
use crate::store::{
    share_children, unbox_widget, widgets_index, ElementCtx, ElementIdx, LayoutError, NodeMap, RankMap,
    TuiElement, WidgetIdx,
};
use vstd::prelude::*;

verus! {

/// One paint call: which content is painted, and into which rectangle.
#[derive(Clone, Copy, Debug, PartialEq, Eq, Structural)]
pub struct PaintCall {
    pub widget: WidgetIdx,
    pub area: Region,
}

impl TuiElement {
    /// The part of `area` that the node occupies.
    pub fn split_area(&self, area: Region) -> (r: Region)
        ensures
            r == area.intersection(self.rect()),
            r.within(area),
            r.within(self.rect()),
    {
        area.intersect(self.area())
    }
}

/// The paint calls of a traversal of the subtree of `id` on a surface with
/// the bounds `area`: the node itself, clipped to the bounds, then its
/// children's subtrees in order, each clipped to the same bounds.
pub open spec fn paint_calls(nodes: NodeMap, rank: RankMap, id: ElementIdx, area: Region) -> Seq<
    PaintCall,
>
    decreases rank[id], 1nat, 0nat,
{
    let node = nodes[id];
    seq![PaintCall { widget: node.widget, area: area.intersection(node.rect()) }] + paint_children(
        nodes,
        rank,
        node.children@,
        node.children@.len(),
        rank[id],
        area,
    )
}

/// The paint calls of the subtrees of the first `k` children in `cs`.
/// `bound` is the parent's number.
pub open spec fn paint_children(
    nodes: NodeMap,
    rank: RankMap,
    cs: Seq<ElementIdx>,
    k: nat,
    bound: nat,
    area: Region,
) -> Seq<PaintCall>
    decreases bound, 0nat, k,
{
    if k == 0 {
        Seq::empty()
    } else {
        let before = paint_children(nodes, rank, cs, (k - 1) as nat, bound, area);
        let c = cs[k - 1];
        if rank[c] < bound {
            before + paint_calls(nodes, rank, c, area)
        } else {
            before
        }
    }
}

/// No paint call of a traversal reaches beyond the surface's bounds.
pub proof fn lemma_paint_within(nodes: NodeMap, rank: RankMap, id: ElementIdx, area: Region)
    ensures
        forall|k: int|
            0 <= k < paint_calls(nodes, rank, id, area).len() ==> (#[trigger] paint_calls(
                nodes,
                rank,
                id,
                area,
            )[k]).area.within(area),
    decreases rank[id], 1nat, 0nat,
{
    let node = nodes[id];
    let own = seq![PaintCall { widget: node.widget, area: area.intersection(node.rect()) }];
    let below = paint_children(nodes, rank, node.children@, node.children@.len(), rank[id], area);
    lemma_intersection_within(area, node.rect());
    lemma_paint_children_within(nodes, rank, node.children@, node.children@.len(), rank[id], area);
    assert forall|k: int| 0 <= k < paint_calls(nodes, rank, id, area).len() implies (
    #[trigger] paint_calls(nodes, rank, id, area)[k]).area.within(area) by {
        if k == 0 {
            assert(paint_calls(nodes, rank, id, area)[k] == own[0]);
        } else {
            assert(paint_calls(nodes, rank, id, area)[k] == below[k - 1]);
        }
    }
}

/// As [`lemma_paint_within`], for the subtrees of the first `k` children.
pub proof fn lemma_paint_children_within(
    nodes: NodeMap,
    rank: RankMap,
    cs: Seq<ElementIdx>,
    k: nat,
    bound: nat,
    area: Region,
)
    ensures
        forall|j: int|
            0 <= j < paint_children(nodes, rank, cs, k, bound, area).len() ==> (
            #[trigger] paint_children(nodes, rank, cs, k, bound, area)[j]).area.within(area),
    decreases bound, 0nat, k,
{
    if k > 0 {
        let before = paint_children(nodes, rank, cs, (k - 1) as nat, bound, area);
        lemma_paint_children_within(nodes, rank, cs, (k - 1) as nat, bound, area);
        let c = cs[k - 1];
        if rank[c] < bound {
            let sub = paint_calls(nodes, rank, c, area);
            lemma_paint_within(nodes, rank, c, area);
            assert forall|j: int|
                0 <= j < paint_children(nodes, rank, cs, k, bound, area).len() implies (
            #[trigger] paint_children(nodes, rank, cs, k, bound, area)[j]).area.within(area) by {
                if j < before.len() {
                    assert(paint_children(nodes, rank, cs, k, bound, area)[j] == before[j]);
                } else {
                    assert(paint_children(nodes, rank, cs, k, bound, area)[j] == sub[j
                        - before.len()]);
                }
            }
        }
    }
}

impl ElementCtx {
    /// Appends the paint calls of the subtree of `root` to `out`.
    fn collect_paint(&self, root: ElementIdx, area: Region, out: &mut Vec<PaintCall>)
        requires
            self.wf(),
            self.contains(root),
            forall|k: int|
                0 <= k < old(out)@.len() ==> self.widget_handles().contains(
                    (#[trigger] old(out)@[k]).widget,
                ),
        ensures
            final(out)@ == old(out)@ + paint_calls(self.nodes(), self.ranks(), root, area),
            forall|k: int|
                0 <= k < final(out)@.len() ==> self.widget_handles().contains(
                    (#[trigger] final(out)@[k]).widget,
                ),
        decreases self.ranks()[root],
    {
        let el = self.node(root);
        let children = share_children(&el.children);
        out.push(PaintCall { widget: el.widget, area: el.split_area(area) });
        let ghost own = out@;
        let ghost cs = children@;
        let count = children.len();
        let mut i: usize = 0;
        while i < count
            invariant
                i <= count,
                count == cs.len(),
                cs == children@,
                self.wf(),
                self.contains(root),
                cs == self.nodes()[root].children@,
                out@ == own + paint_children(
                    self.nodes(),
                    self.ranks(),
                    cs,
                    i as nat,
                    self.ranks()[root],
                    area,
                ),
                forall|k: int|
                    0 <= k < out@.len() ==> self.widget_handles().contains(
                        (#[trigger] out@[k]).widget,
                    ),
            decreases count - i,
        {
            let child = children[i];
            assert(self.nodes()[root].children@[i as int] == child);
            self.collect_paint(child, area, out);
            i += 1;
        }
    }

    /// The paint calls of a traversal of the subtree of `root` on a surface
    /// with the bounds `area`, in the order in which they are made.
    pub fn render_plan(&self, root: ElementIdx, area: Region) -> (plan: Vec<PaintCall>)
        requires
            self.wf(),
            self.contains(root),
        ensures
            plan@ == paint_calls(self.nodes(), self.ranks(), root, area),
            forall|k: int|
                0 <= k < plan@.len() ==> self.widget_handles().contains(
                    (#[trigger] plan@[k]).widget,
                ),
            forall|k: int| 0 <= k < plan@.len() ==> (#[trigger] plan@[k]).area.within(area),
    {
        let mut plan: Vec<PaintCall> = Vec::new();
        self.collect_paint(root, area, &mut plan);
        proof {
            lemma_paint_within(self.nodes(), self.ranks(), root, area);
        }
        plan
    }

    /// Paints the subtree of `root` onto `buf`, whose bounds are `area`:
    /// every node's content is handed the part of the node's rectangle that
    /// lies within the bounds. A handle that names no node is reported, and
    /// nothing is painted.
    pub fn render(&self, root: ElementIdx, area: Region, buf: &mut ratatui::buffer::Buffer) -> (r:
        Result<(), LayoutError>)
        requires
            self.wf(),
        ensures
            r is Ok <==> self.contains(root),
            r matches Err(e) ==> e == LayoutError::InvalidHandle,
    {
        if !self.has(root) {
            return Err(LayoutError::InvalidHandle);
        }
        let plan = self.render_plan(root, area);
        let count = plan.len();
        let mut i: usize = 0;
        while i < count
            invariant
                i <= count,
                count == plan.len(),
                forall|k: int|
                    0 <= k < plan@.len() ==> self.widget_handles().contains(
                        (#[trigger] plan@[k]).widget,
                    ),
            decreases count - i,
        {
            let call = plan[i];
            let content = unbox_widget(widgets_index(&self.widgets, call.widget));
            content.render_element(call.area, buf);
            i += 1;
        }
        Ok(())
    }
}

} // verus!
