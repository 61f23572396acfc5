//! The arena that owns the element tree: node records and their renderable
//! content, both addressed by generation-checked handles.

use crate::geometry::{Region, Vec2};
use crate::policy::LayoutParams;
use crate::tree::{forest, in_children, in_subtree, kids_of, lemma_below_child};
use std::sync::Arc;
use vstd::prelude::*;

verus! {

/// `generational_arena::Arena`, taken as it is.
#[verifier::external_type_specification]
#[verifier::external_body]
#[verifier::reject_recursive_types(T)]
pub struct ExArena<T>(generational_arena::Arena<T>);

/// `smallbox::SmallBox`, taken as it is.
#[verifier::external_type_specification]
#[verifier::external_body]
#[verifier::reject_recursive_types(T)]
#[verifier::reject_recursive_types(Space)]
pub struct ExSmallBox<T: ?Sized, Space>(smallbox::SmallBox<T, Space>);

/// `ratatui::buffer::Buffer`, the surface that is painted on, taken as it
/// is.
#[verifier::external_type_specification]
#[verifier::external_body]
pub struct ExBuffer(ratatui::buffer::Buffer);

/// Handle of a node record.
#[derive(Clone, Copy, Debug, PartialEq, Eq, Structural)]
pub struct ElementIdx {
    index: usize,
    generation: u64,
}

/// Handle of a node's renderable content.
#[derive(Clone, Copy, Debug, PartialEq, Eq, Structural)]
pub struct WidgetIdx {
    index: usize,
    generation: u64,
}

/// Why an operation on the arena could not be carried out.
#[derive(Clone, Copy, Debug, PartialEq, Eq, Structural)]
pub enum LayoutError {
    /// The handle names no node of this arena.
    InvalidHandle,
}

/// Renderable content: it can paint itself into a rectangle of a surface.
pub trait ElWidget {
    fn render_element(&self, area: Region, buf: &mut ratatui::buffer::Buffer);
}

/// Renderable content behind its one capability.
pub type WidgetBox = smallbox::SmallBox<dyn ElWidget, usize>;

/// One node of the tree.
pub struct TuiElement {
    pub widget: WidgetIdx,
    pub layout_params: LayoutParams,
    pub position: Vec2,
    pub size: Vec2,
    pub children: Arc<Vec<ElementIdx>>,
}

impl TuiElement {
    /// The node with another size.
    pub open spec fn sized(self, size: Vec2) -> TuiElement {
        TuiElement { size, ..self }
    }

    /// The node with other layout parameters.
    pub open spec fn with_params(self, params: LayoutParams) -> TuiElement {
        TuiElement { layout_params: params, ..self }
    }

    /// The node with another position.
    pub open spec fn placed(self, position: Vec2) -> TuiElement {
        TuiElement { position, ..self }
    }

    /// The rectangle the node occupies.
    pub open spec fn rect(self) -> Region {
        Region::at(self.position, self.size)
    }

    /// The rectangle the node occupies.
    pub fn area(&self) -> (r: Region)
        ensures
            r == self.rect(),
    {
        Region { x: self.position.x, y: self.position.y, width: self.size.x, height: self.size.y }
    }
}

/// The node records of an arena, by handle.
pub type NodeMap = Map<ElementIdx, TuiElement>;

/// A number for each node; see [`ranked`].
pub type RankMap = Map<ElementIdx, nat>;

/// What the arena of node records holds.
pub uninterp spec fn arena_elements(arena: generational_arena::Arena<TuiElement>) -> Map<
    ElementIdx,
    TuiElement,
>;

/// The handles under which the arena of renderable content holds something.
pub uninterp spec fn arena_widgets(arena: generational_arena::Arena<WidgetBox>) -> Set<WidgetIdx>;

/// Every child handle names a node, and every node's number is larger than
/// each of its children's: no node is its own descendant.
pub open spec fn ranked(nodes: NodeMap, rank: RankMap) -> bool {
    forall|id: ElementIdx, k: int|
        #![trigger nodes[id].children@[k]]
        nodes.dom().contains(id) && 0 <= k < nodes[id].children@.len() ==> {
            &&& nodes.dom().contains(nodes[id].children@[k])
            &&& rank[nodes[id].children@[k]] < rank[id]
        }
}

/// The two maps hold the same nodes with the same content, parameters and
/// children; sizes and positions may differ.
pub open spec fn same_shape(a: NodeMap, b: NodeMap) -> bool {
    &&& a.dom() == b.dom()
    &&& forall|id: ElementIdx|
        #![trigger a[id]]
        #![trigger b[id]]
        a.dom().contains(id) ==> {
            &&& a[id].children == b[id].children
            &&& a[id].layout_params == b[id].layout_params
            &&& a[id].widget == b[id].widget
        }
}

/// Nodes that keep their children keep their numbering.
pub proof fn lemma_same_shape_ranked(a: NodeMap, b: NodeMap, rank: RankMap)
    requires
        same_shape(a, b),
        ranked(a, rank),
    ensures
        ranked(b, rank),
{
    assert forall|id: ElementIdx, k: int|
        b.dom().contains(id) && 0 <= k < b[id].children@.len() implies b.dom().contains(
        #[trigger] b[id].children@[k],
    ) && rank[b[id].children@[k]] < rank[id] by {
        assert(a[id].children@[k] == b[id].children@[k]);
    }
}

/// Giving one node another size or position changes no node's shape.
pub proof fn lemma_resize_same_shape(a: NodeMap, id: ElementIdx, n: TuiElement)
    requires
        a.dom().contains(id),
        n.children == a[id].children,
        n.layout_params == a[id].layout_params,
        n.widget == a[id].widget,
    ensures
        same_shape(a, a.insert(id, n)),
{
    assert(a.dom() =~= a.insert(id, n).dom());
}

/// Having the same shape carries over.
pub proof fn lemma_same_shape_trans(a: NodeMap, b: NodeMap, c: NodeMap)
    requires
        same_shape(a, b),
        same_shape(b, c),
    ensures
        same_shape(a, c),
{
}

/// A number larger than the number of each node in `cs`.
pub open spec fn rank_above(rank: RankMap, cs: Seq<ElementIdx>) -> nat
    decreases cs.len(),
{
    if cs.len() == 0 {
        0
    } else {
        let rest = rank_above(rank, cs.drop_last());
        if rank[cs.last()] < rest {
            rest
        } else {
            rank[cs.last()] + 1
        }
    }
}

/// [`rank_above`] lies above the number of each node in the list.
pub proof fn lemma_rank_above(rank: RankMap, cs: Seq<ElementIdx>, k: int)
    requires
        0 <= k < cs.len(),
    ensures
        rank[cs[k]] < rank_above(rank, cs),
    decreases cs.len(),
{
    if k < cs.len() - 1 {
        lemma_rank_above(rank, cs.drop_last(), k);
    }
}

/// `Arena::new` for node records: an arena that holds nothing.
#[verifier::external_body]
pub(crate) fn elements_new() -> (arena: generational_arena::Arena<TuiElement>)
    ensures
        arena_elements(arena) == NodeMap::empty(),
{
    generational_arena::Arena::new()
}

/// `Arena::new` for renderable content: an arena that holds nothing.
#[verifier::external_body]
pub(crate) fn widgets_new() -> (arena: generational_arena::Arena<WidgetBox>)
    ensures
        arena_widgets(arena) == Set::<WidgetIdx>::empty(),
{
    generational_arena::Arena::new()
}

/// `Arena::insert`: the value is stored under a handle that named nothing
/// before, and nothing else changes.
#[verifier::external_body]
pub(crate) fn elements_insert(
    arena: &mut generational_arena::Arena<TuiElement>,
    value: TuiElement,
) -> (idx: ElementIdx)
    ensures
        !arena_elements(*old(arena)).dom().contains(idx),
        arena_elements(*final(arena)) == arena_elements(*old(arena)).insert(idx, value),
{
    let (index, generation) = arena.insert(value).into_raw_parts();
    ElementIdx { index, generation }
}

/// `Arena::get`: the node under the handle, or `None` where the handle names
/// nothing.
#[verifier::external_body]
pub(crate) fn elements_get(arena: &generational_arena::Arena<TuiElement>, idx: ElementIdx) -> (r:
    Option<&TuiElement>)
    ensures
        r is Some <==> arena_elements(*arena).dom().contains(idx),
        r matches Some(e) ==> *e == arena_elements(*arena)[idx],
{
    arena.get(generational_arena::Index::from_raw_parts(idx.index, idx.generation))
}

/// `IndexMut::index_mut` of the arena: exclusive access to the node under a
/// handle that names one. What is written through the reference replaces the
/// node; nothing else changes.
#[verifier::external_body]
pub(crate) fn elements_index_mut(
    arena: &mut generational_arena::Arena<TuiElement>,
    idx: ElementIdx,
) -> (r: &mut TuiElement)
    requires
        arena_elements(*old(arena)).dom().contains(idx),
    ensures
        *r == arena_elements(*old(arena))[idx],
        arena_elements(*final(arena)) == arena_elements(*old(arena)).insert(idx, *final(r)),
{
    &mut arena[generational_arena::Index::from_raw_parts(idx.index, idx.generation)]
}

/// `Arena::reserve` on the node records: room for more nodes, the contents
/// as before. The count is small enough for its sum with the present
/// capacity to be a `usize`, and it is not zero: the arena would then take
/// the slot behind its last one for a free one.
#[verifier::external_body]
pub(crate) fn elements_reserve(arena: &mut generational_arena::Arena<TuiElement>, additional: usize)
    requires
        0 < additional <= RESERVE_LIMIT,
    ensures
        arena_elements(*final(arena)) == arena_elements(*old(arena)),
{
    arena.reserve(additional)
}

/// `Arena::reserve` on the renderable content, as [`elements_reserve`].
#[verifier::external_body]
pub(crate) fn widgets_reserve(arena: &mut generational_arena::Arena<WidgetBox>, additional: usize)
    requires
        0 < additional <= RESERVE_LIMIT,
    ensures
        arena_widgets(*final(arena)) == arena_widgets(*old(arena)),
{
    arena.reserve(additional)
}

/// `SmallBox::from_box`: the content, boxed behind its one capability.
#[verifier::external_body]
pub(crate) fn box_widget<W: ElWidget + 'static>(widget: W) -> WidgetBox {
    let boxed: Box<dyn ElWidget> = Box::new(widget);
    smallbox::SmallBox::from_box(boxed)
}

/// `Arena::insert` for renderable content: it is stored under a handle that
/// named nothing before, and nothing else changes.
#[verifier::external_body]
pub(crate) fn widgets_insert(
    arena: &mut generational_arena::Arena<WidgetBox>,
    widget: WidgetBox,
) -> (idx: WidgetIdx)
    ensures
        !arena_widgets(*old(arena)).contains(idx),
        arena_widgets(*final(arena)) == arena_widgets(*old(arena)).insert(idx),
{
    let (index, generation) = arena.insert(widget).into_raw_parts();
    WidgetIdx { index, generation }
}

/// `Index::index` of the arena of renderable content: the content under a
/// handle that names some.
#[verifier::external_body]
pub(crate) fn widgets_index(arena: &generational_arena::Arena<WidgetBox>, idx: WidgetIdx) -> (r:
    &WidgetBox)
    requires
        arena_widgets(*arena).contains(idx),
{
    &arena[generational_arena::Index::from_raw_parts(idx.index, idx.generation)]
}

/// `Deref::deref` of the box: the content it holds.
#[verifier::external_body]
pub(crate) fn unbox_widget(boxed: &WidgetBox) -> (r: &dyn ElWidget) {
    &**boxed
}

/// `Arena::iter` on the node records: the handle of every node the arena
/// holds, in no particular order.
#[verifier::external_body]
pub(crate) fn elements_handles(arena: &generational_arena::Arena<TuiElement>) -> (handles: Vec<
    ElementIdx,
>)
    ensures
        forall|idx: ElementIdx|
            handles@.contains(idx) <==> arena_elements(*arena).dom().contains(idx),
{
    let mut handles = Vec::new();
    for (handle, _) in arena.iter() {
        let (index, generation) = handle.into_raw_parts();
        handles.push(ElementIdx { index, generation });
    }
    handles
}

/// `Arc::clone`: another owner of the same list.
#[verifier::external_body]
pub(crate) fn share_children(children: &Arc<Vec<ElementIdx>>) -> (r: Arc<Vec<ElementIdx>>)
    ensures
        r == *children,
{
    Arc::clone(children)
}

/// The most slots one call of [`ElementCtx::reserve`] asks the arena for.
pub const RESERVE_LIMIT: usize = 0x10000;

/// The element tree: node records and their renderable content.
pub struct ElementCtx {
    pub(crate) elements: generational_arena::Arena<TuiElement>,
    pub(crate) widgets: generational_arena::Arena<WidgetBox>,
    pub(crate) ranks: Ghost<RankMap>,
}

impl ElementCtx {
    /// The node records, by handle.
    pub open(crate) spec fn nodes(&self) -> NodeMap {
        arena_elements(self.elements)
    }

    /// The handles of the renderable content held.
    pub open(crate) spec fn widget_handles(&self) -> Set<WidgetIdx> {
        arena_widgets(self.widgets)
    }

    /// A number for each node that is larger than each of its children's.
    pub open(crate) spec fn ranks(&self) -> RankMap {
        self.ranks@
    }

    /// Whether `idx` names a node of this arena.
    pub open spec fn contains(&self, idx: ElementIdx) -> bool {
        self.nodes().dom().contains(idx)
    }

    /// No node lists `idx` among its children.
    pub open spec fn is_root(&self, idx: ElementIdx) -> bool {
        forall|id: ElementIdx, k: int|
            #![trigger self.nodes()[id].children@[k]]
            self.contains(id) && 0 <= k < self.nodes()[id].children@.len()
                ==> self.nodes()[id].children@[k] != idx
    }

    /// Whether `idx` is `top` itself or lies below it.
    pub open spec fn below(&self, top: ElementIdx, idx: ElementIdx) -> bool {
        in_subtree(kids_of(self.nodes()), self.ranks(), top, idx)
    }

    /// The arena holds a forest: children exist, no node is its own
    /// descendant, and every node's content is stored.
    pub open spec fn wf(&self) -> bool {
        &&& ranked(self.nodes(), self.ranks())
        &&& forall|id: ElementIdx|
            #![trigger self.nodes()[id]]
            self.contains(id) ==> self.widget_handles().contains(self.nodes()[id].widget)
    }

    /// No node is listed twice as a child: below every node lies a tree.
    pub open spec fn is_forest(&self) -> bool {
        forest(self.nodes())
    }

    /// `self` holds the nodes of `before` in the same shape: sizes and
    /// positions apart, nothing differs.
    pub open spec fn resized_from(self, before: ElementCtx) -> bool {
        &&& same_shape(before.nodes(), self.nodes())
        &&& self.ranks() == before.ranks()
        &&& self.widget_handles() == before.widget_handles()
    }

    /// The node under a handle that names one.
    pub(crate) fn node(&self, idx: ElementIdx) -> (e: &TuiElement)
        requires
            self.contains(idx),
        ensures
            *e == self.nodes()[idx],
    {
        match elements_get(&self.elements, idx) {
            Some(e) => e,
            None => vstd::pervasive::unreached(),
        }
    }

    /// An arena that holds nothing.
    pub fn new() -> (ctx: ElementCtx)
        ensures
            ctx.wf(),
            ctx.is_forest(),
            ctx.nodes() == NodeMap::empty(),
    {
        ElementCtx {
            elements: elements_new(),
            widgets: widgets_new(),
            ranks: Ghost(RankMap::empty()),
        }
    }

    /// Whether `idx` names a node of this arena.
    pub fn has(&self, idx: ElementIdx) -> (b: bool)
        ensures
            b == self.contains(idx),
    {
        elements_get(&self.elements, idx).is_some()
    }

    /// The node under `idx`.
    pub fn get(&self, idx: ElementIdx) -> (r: Result<&TuiElement, LayoutError>)
        ensures
            r is Ok <==> self.contains(idx),
            r matches Ok(e) ==> *e == self.nodes()[idx],
            r matches Err(e) ==> e == LayoutError::InvalidHandle,
    {
        match elements_get(&self.elements, idx) {
            Some(e) => Ok(e),
            None => Err(LayoutError::InvalidHandle),
        }
    }

    /// Gives the node under `idx` other layout parameters.
    pub fn set_layout_params(&mut self, idx: ElementIdx, params: LayoutParams) -> (r: Result<
        (),
        LayoutError,
    >)
        ensures
            r is Ok <==> old(self).contains(idx),
            r is Ok ==> final(self).nodes() == old(self).nodes().insert(
                idx,
                old(self).nodes()[idx].with_params(params),
            ),
            r matches Err(e) ==> e == LayoutError::InvalidHandle && final(self).nodes() == old(
                self,
            ).nodes(),
            final(self).ranks() == old(self).ranks(),
            final(self).widget_handles() == old(self).widget_handles(),
            old(self).wf() ==> final(self).wf(),
            old(self).is_forest() ==> final(self).is_forest(),
    {
        if !self.has(idx) {
            return Err(LayoutError::InvalidHandle);
        }
        let el = elements_index_mut(&mut self.elements, idx);
        el.layout_params = params;
        proof {
            lemma_rewritten(*old(self), *self, idx);
        }
        Ok(())
    }

    /// Moves the node under `idx` to `position`. A layout leaves the node
    /// it starts from where it stands, and places what lies below it from
    /// there.
    pub fn set_position(&mut self, idx: ElementIdx, position: Vec2) -> (r: Result<
        (),
        LayoutError,
    >)
        ensures
            r is Ok <==> old(self).contains(idx),
            r is Ok ==> final(self).nodes() == old(self).nodes().insert(
                idx,
                old(self).nodes()[idx].placed(position),
            ),
            r matches Err(e) ==> e == LayoutError::InvalidHandle && final(self).nodes() == old(
                self,
            ).nodes(),
            final(self).ranks() == old(self).ranks(),
            final(self).widget_handles() == old(self).widget_handles(),
            old(self).wf() ==> final(self).wf(),
            old(self).is_forest() ==> final(self).is_forest(),
    {
        if !self.has(idx) {
            return Err(LayoutError::InvalidHandle);
        }
        let el = elements_index_mut(&mut self.elements, idx);
        el.position = position;
        proof {
            lemma_rewritten(*old(self), *self, idx);
        }
        Ok(())
    }

    /// Gives the node under `idx` the size `size`. A layout reads the size
    /// a node had in the dimensions in which the node grows.
    pub fn set_size(&mut self, idx: ElementIdx, size: Vec2) -> (r: Result<(), LayoutError>)
        ensures
            r is Ok <==> old(self).contains(idx),
            r is Ok ==> final(self).nodes() == old(self).nodes().insert(
                idx,
                old(self).nodes()[idx].sized(size),
            ),
            r matches Err(e) ==> e == LayoutError::InvalidHandle && final(self).nodes() == old(
                self,
            ).nodes(),
            final(self).ranks() == old(self).ranks(),
            final(self).widget_handles() == old(self).widget_handles(),
            old(self).wf() ==> final(self).wf(),
            old(self).is_forest() ==> final(self).is_forest(),
    {
        if !self.has(idx) {
            return Err(LayoutError::InvalidHandle);
        }
        let el = elements_index_mut(&mut self.elements, idx);
        el.size = size;
        proof {
            lemma_rewritten(*old(self), *self, idx);
        }
        Ok(())
    }

    /// Whether `idx` is `top` itself or lies below it.
    pub fn is_below(&self, top: ElementIdx, idx: ElementIdx) -> (b: bool)
        requires
            self.wf(),
            self.contains(top),
        ensures
            b == self.below(top, idx),
        decreases self.ranks()[top],
    {
        if top == idx {
            return true;
        }
        let node = self.node(top);
        let mut k: usize = 0;
        while k < node.children.len()
            invariant
                k <= node.children.len(),
                self.wf(),
                self.contains(top),
                *node == self.nodes()[top],
                !in_children(
                    kids_of(self.nodes()),
                    self.ranks(),
                    node.children@,
                    k as nat,
                    self.ranks()[top],
                    idx,
                ),
            decreases node.children.len() - k,
        {
            let child = node.children[k];
            assert(self.nodes()[top].children@[k as int] == child);
            if self.is_below(child, idx) {
                proof {
                    lemma_below_child(self.nodes(), self.ranks(), top, k as int, idx);
                }
                return true;
            }
            k += 1;
        }
        assert(kids_of(self.nodes())[top] == node.children@);
        false
    }

    /// Whether no node has `idx` as a child.
    pub fn is_parentless(&self, idx: ElementIdx) -> (b: bool)
        ensures
            b == self.is_root(idx),
    {
        let handles = elements_handles(&self.elements);
        let mut i: usize = 0;
        while i < handles.len()
            invariant
                i <= handles.len(),
                forall|id: ElementIdx| handles@.contains(id) <==> self.contains(id),
                forall|t: int, k: int|
                    #![trigger self.nodes()[handles@[t]].children@[k]]
                    0 <= t < i && 0 <= k < self.nodes()[handles@[t]].children@.len()
                        ==> self.nodes()[handles@[t]].children@[k] != idx,
            decreases handles.len() - i,
        {
            let handle = handles[i];
            assert(handles@.contains(handle));
            let node = self.node(handle);
            let mut k: usize = 0;
            while k < node.children.len()
                invariant
                    k <= node.children.len(),
                    self.contains(handle),
                    *node == self.nodes()[handle],
                    forall|j: int| 0 <= j < k ==> node.children@[j] != idx,
                decreases node.children.len() - k,
            {
                if node.children[k] == idx {
                    assert(self.nodes()[handle].children@[k as int] == idx);
                    return false;
                }
                k += 1;
            }
            i += 1;
        }
        assert forall|id: ElementIdx, k: int|
            self.contains(id) && 0 <= k < self.nodes()[id].children@.len() implies (
        #[trigger] self.nodes()[id].children@[k]) != idx by {
            assert(handles@.contains(id));
            let t = choose|t: int| 0 <= t < handles@.len() && handles@[t] == id;
            assert(self.nodes()[handles@[t]].children@[k] != idx);
        }
        true
    }

    /// Makes room for `additional` more nodes, at most [`RESERVE_LIMIT`] at a
    /// time. What the arena holds stays as it is.
    pub fn reserve(&mut self, additional: usize)
        ensures
            final(self).nodes() == old(self).nodes(),
            final(self).widget_handles() == old(self).widget_handles(),
            final(self).ranks() == old(self).ranks(),
    {
        let count = if additional > RESERVE_LIMIT {
            RESERVE_LIMIT
        } else {
            additional
        };
        if count > 0 {
            elements_reserve(&mut self.elements, count);
            widgets_reserve(&mut self.widgets, count);
        }
    }

    /// Inserts a node with the given content, parameters and children, and
    /// returns its handle. The children are nodes of this arena already; the
    /// new node starts with no size and at the origin.
    pub fn element<W: ElWidget + 'static>(
        &mut self,
        widget: W,
        layout_params: LayoutParams,
        children: Option<&[ElementIdx]>,
    ) -> (idx: ElementIdx)
        requires
            old(self).wf(),
            children matches Some(cs) ==> forall|k: int|
                0 <= k < cs@.len() ==> old(self).contains(#[trigger] cs@[k]),
        ensures
            final(self).wf(),
            !old(self).contains(idx),
            final(self).nodes().dom() == old(self).nodes().dom().insert(idx),
            forall|id: ElementIdx|
                old(self).contains(id) ==> #[trigger] final(self).nodes()[id] == old(
                    self,
                ).nodes()[id],
            final(self).nodes()[idx].layout_params == layout_params,
            final(self).nodes()[idx].size == (Vec2 { x: 0, y: 0 }),
            final(self).nodes()[idx].position == (Vec2 { x: 0, y: 0 }),
            final(self).nodes()[idx].children@ == listed_children(children),
            !old(self).widget_handles().contains(final(self).nodes()[idx].widget),
            final(self).widget_handles() == old(self).widget_handles().insert(
                final(self).nodes()[idx].widget,
            ),
            final(self).is_root(idx),
            old(self).is_forest() && unclaimed(*old(self), listed_children(children))
                ==> final(self).is_forest(),
    {
        let kids: Vec<ElementIdx> = match children {
            Some(cs) => vstd::slice::slice_to_vec(cs),
            None => Vec::new(),
        };
        let ghost rank = rank_above(self.ranks@, kids@);
        let widget_idx = widgets_insert(&mut self.widgets, box_widget(widget));
        let element = TuiElement {
            widget: widget_idx,
            layout_params,
            position: Vec2 { x: 0, y: 0 },
            size: Vec2 { x: 0, y: 0 },
            children: Arc::new(kids),
        };
        let idx = elements_insert(&mut self.elements, element);
        proof {
            self.ranks@ = self.ranks@.insert(idx, rank);
            assert forall|id: ElementIdx, k: int|
                self.nodes().dom().contains(id) && 0 <= k < self.nodes()[id].children@.len()
                implies self.nodes().dom().contains(#[trigger] self.nodes()[id].children@[k])
                && self.ranks()[self.nodes()[id].children@[k]] < self.ranks()[id] by {
                if id == idx {
                    lemma_rank_above(old(self).ranks@, kids@, k);
                } else {
                    assert(old(self).nodes()[id].children@[k] == self.nodes()[id].children@[k]);
                }
            }
            if old(self).is_forest() && unclaimed(*old(self), listed_children(children)) {
                let before = old(self).nodes();
                assert forall|k: int, a: ElementIdx, i: int|
                    0 <= k < kids@.len() && before.dom().contains(a) && 0 <= i
                        < before[a].children@.len() implies #[trigger] before[a].children@[i]
                    != #[trigger] kids@[k] by {
                    assert(old(self).is_root(kids@[k]));
                }
                lemma_adopt_forest(before, self.nodes(), idx, kids@);
            }
        }
        idx
    }
}

/// An arena whose nodes were only resized or moved is as well-formed as it
/// was.
pub proof fn lemma_resized_wf(before: ElementCtx, after: ElementCtx)
    requires
        before.wf(),
        after.resized_from(before),
    ensures
        after.wf(),
{
    lemma_same_shape_ranked(before.nodes(), after.nodes(), before.ranks());
    assert forall|id: ElementIdx| after.contains(id) implies after.widget_handles().contains(
        #[trigger] after.nodes()[id].widget,
    ) by {
        assert(before.nodes()[id].widget == after.nodes()[id].widget);
    }
}

/// Replacing one node by a resized or moved copy of itself keeps the shape
/// that the arena had since `first`.
pub proof fn lemma_resize_step(first: NodeMap, prev: NodeMap, id: ElementIdx, node: TuiElement)
    requires
        same_shape(first, prev),
        prev.dom().contains(id),
        node.children == prev[id].children,
        node.layout_params == prev[id].layout_params,
        node.widget == prev[id].widget,
    ensures
        same_shape(first, prev.insert(id, node)),
{
    lemma_resize_same_shape(prev, id, node);
    lemma_same_shape_trans(first, prev, prev.insert(id, node));
}

/// An arena in which one node has been rewritten, its children and its
/// content apart, is as well formed as it was.
pub proof fn lemma_rewritten(before: ElementCtx, after: ElementCtx, idx: ElementIdx)
    requires
        before.contains(idx),
        after.nodes() == before.nodes().insert(idx, after.nodes()[idx]),
        after.nodes()[idx].children == before.nodes()[idx].children,
        after.nodes()[idx].widget == before.nodes()[idx].widget,
        after.ranks() == before.ranks(),
        after.widget_handles() == before.widget_handles(),
    ensures
        before.wf() ==> after.wf(),
        before.is_forest() ==> after.is_forest(),
{
    let a = before.nodes();
    let b = after.nodes();
    assert(b.dom() =~= a.dom());
    assert forall|id: ElementIdx| a.dom().contains(id) implies (#[trigger] b[id]).children
        == a[id].children && b[id].widget == a[id].widget by {}
    if before.wf() {
        assert forall|id: ElementIdx, k: int|
            b.dom().contains(id) && 0 <= k < b[id].children@.len() implies b.dom().contains(
            #[trigger] b[id].children@[k],
        ) && after.ranks()[b[id].children@[k]] < after.ranks()[id] by {
            assert(b[id].children == a[id].children);
            assert(a[id].children@[k] == b[id].children@[k]);
        }
        assert forall|id: ElementIdx| after.contains(id) implies after.widget_handles().contains(
            (#[trigger] after.nodes()[id]).widget,
        ) by {
            assert(b[id].widget == a[id].widget);
            assert(before.widget_handles().contains(before.nodes()[id].widget));
        }
    }
    if before.is_forest() {
        assert forall|x: ElementIdx, i: int, y: ElementIdx, j: int|
            b.dom().contains(x) && b.dom().contains(y) && 0 <= i < b[x].children@.len() && 0 <= j
                < b[y].children@.len() && #[trigger] b[x].children@[i]
                == #[trigger] b[y].children@[j] implies x == y && i == j by {
            assert(b[x].children == a[x].children);
            assert(b[y].children == a[y].children);
            assert(a[x].children@[i] == a[y].children@[j]);
        }
    }
}

/// The handles are different nodes that no node has as a child yet.
pub open spec fn unclaimed(ctx: ElementCtx, cs: Seq<ElementIdx>) -> bool {
    &&& forall|k: int| 0 <= k < cs.len() ==> ctx.is_root(#[trigger] cs[k])
    &&& forall|i: int, j: int| 0 <= i < j < cs.len() ==> cs[i] != cs[j]
}

/// The handles are different nodes that no node but `id` has as a child.
pub open spec fn free_for(ctx: ElementCtx, id: ElementIdx, cs: Seq<ElementIdx>) -> bool {
    &&& forall|k: int, a: ElementIdx, i: int|
        #![trigger cs[k], ctx.nodes()[a].children@[i]]
        0 <= k < cs.len() && ctx.contains(a) && a != id && 0 <= i
            < ctx.nodes()[a].children@.len() ==> ctx.nodes()[a].children@[i] != cs[k]
    &&& forall|i: int, j: int| 0 <= i < j < cs.len() ==> cs[i] != cs[j]
}

/// The children a node is inserted with.
pub open spec fn listed_children(children: Option<&[ElementIdx]>) -> Seq<ElementIdx> {
    match children {
        Some(cs) => cs@,
        None => Seq::empty(),
    }
}

/// A forest stays one when a node, or a new node, takes different nodes as
/// its children that no other node has as a child.
pub proof fn lemma_adopt_forest(
    before: NodeMap,
    after: NodeMap,
    id: ElementIdx,
    cs: Seq<ElementIdx>,
)
    requires
        forest(before),
        after.dom() == before.dom().insert(id),
        after[id].children@ == cs,
        forall|m: ElementIdx|
            before.dom().contains(m) && m != id ==> #[trigger] after[m] == before[m],
        forall|k: int, a: ElementIdx, i: int|
            #![trigger cs[k], before[a].children@[i]]
            0 <= k < cs.len() && before.dom().contains(a) && a != id && 0 <= i
                < before[a].children@.len() ==> before[a].children@[i] != cs[k],
        forall|i: int, j: int| 0 <= i < j < cs.len() ==> cs[i] != cs[j],
    ensures
        forest(after),
{
    assert forall|a: ElementIdx, i: int, b: ElementIdx, j: int|
        after.dom().contains(a) && after.dom().contains(b) && 0 <= i < after[a].children@.len()
            && 0 <= j < after[b].children@.len() && #[trigger] after[a].children@[i]
            == #[trigger] after[b].children@[j] implies a == b && i == j by {
        if a == id && b == id {
            if i < j {
                assert(cs[i] != cs[j]);
            } else if j < i {
                assert(cs[j] != cs[i]);
            }
        } else if a == id {
            assert(before[b].children@[j] != cs[i]);
        } else if b == id {
            assert(before[a].children@[i] != cs[j]);
        } else {
            assert(before[a].children@[i] == before[b].children@[j]);
        }
    }
}

/// The numbering after the node `id` has taken the nodes `cs` as its
/// children: `id` and every node above it move up by more than any of the
/// new children's numbers, and the others keep theirs.
pub open spec fn ranks_over(
    nodes: NodeMap,
    rank: RankMap,
    id: ElementIdx,
    cs: Seq<ElementIdx>,
) -> RankMap {
    Map::total(
        |x: ElementIdx|
            if in_subtree(kids_of(nodes), rank, x, id) {
                (rank[x] + rank_above(rank, cs)) as nat
            } else {
                rank[x]
            },
    )
}

/// A node that lies below none of the nodes in `cs` can take them as its
/// children: no node becomes its own descendant.
pub proof fn lemma_adopt_ranked(
    before: NodeMap,
    after: NodeMap,
    rank: RankMap,
    id: ElementIdx,
    cs: Seq<ElementIdx>,
)
    requires
        ranked(before, rank),
        before.dom().contains(id),
        after.dom() == before.dom(),
        after[id].children@ == cs,
        forall|m: ElementIdx|
            before.dom().contains(m) && m != id ==> (#[trigger] after[m]).children
                == before[m].children,
        forall|k: int|
            0 <= k < cs.len() ==> before.dom().contains(#[trigger] cs[k]) && !in_subtree(
                kids_of(before),
                rank,
                cs[k],
                id,
            ),
    ensures
        ranked(after, ranks_over(before, rank, id, cs)),
{
    let kids = kids_of(before);
    let raised = ranks_over(before, rank, id, cs);
    let lift = rank_above(rank, cs);
    assert(in_subtree(kids, rank, id, id));
    assert forall|m: ElementIdx, k: int|
        after.dom().contains(m) && 0 <= k < after[m].children@.len() implies after.dom().contains(
        #[trigger] after[m].children@[k],
    ) && raised[after[m].children@[k]] < raised[m] by {
        let q = after[m].children@[k];
        if m == id {
            assert(q == cs[k]);
            lemma_rank_above(rank, cs, k);
        } else {
            assert(after[m].children == before[m].children);
            assert(before[m].children@[k] == q);
            if in_subtree(kids, rank, q, id) {
                lemma_below_child(before, rank, m, k, id);
            }
        }
    }
}

impl ElementIdx {
    /// Gives the node new children, and returns its handle. The children
    /// are nodes of the arena, and the node lies below none of them: it is
    /// none of them, and none of what they hold.
    pub fn children(self, ctx: &mut ElementCtx, children: &[ElementIdx]) -> (idx: ElementIdx)
        requires
            old(ctx).wf(),
            old(ctx).contains(self),
            forall|k: int|
                0 <= k < children@.len() ==> old(ctx).contains(#[trigger] children@[k]) && !old(
                    ctx,
                ).below(children@[k], self),
        ensures
            idx == self,
            final(ctx).wf(),
            final(ctx).nodes().dom() == old(ctx).nodes().dom(),
            forall|id: ElementIdx|
                old(ctx).contains(id) && id != self ==> #[trigger] final(ctx).nodes()[id] == old(
                    ctx,
                ).nodes()[id],
            final(ctx).nodes()[self].children@ == children@,
            final(ctx).nodes()[self].layout_params == old(ctx).nodes()[self].layout_params,
            final(ctx).nodes()[self].size == old(ctx).nodes()[self].size,
            final(ctx).nodes()[self].position == old(ctx).nodes()[self].position,
            final(ctx).nodes()[self].widget == old(ctx).nodes()[self].widget,
            final(ctx).widget_handles() == old(ctx).widget_handles(),
            final(ctx).is_root(self) == old(ctx).is_root(self),
            old(ctx).is_forest() && (unclaimed(*old(ctx), children@) || free_for(
                *old(ctx),
                self,
                children@,
            )) ==> final(ctx).is_forest(),
    {
        let kids = vstd::slice::slice_to_vec(children);
        let el = elements_index_mut(&mut ctx.elements, self);
        el.children = Arc::new(kids);
        proof {
            let before = old(ctx).nodes();
            ctx.ranks@ = ranks_over(before, old(ctx).ranks(), self, kids@);
            assert(ctx.nodes().dom() =~= before.dom());
            lemma_adopt_ranked(before, ctx.nodes(), old(ctx).ranks(), self, kids@);
            assert(in_subtree(kids_of(before), old(ctx).ranks(), self, self));
            assert forall|id: ElementIdx| ctx.contains(id) implies ctx.widget_handles().contains(
                (#[trigger] ctx.nodes()[id]).widget,
            ) by {
                assert(old(ctx).widget_handles().contains(before[id].widget));
            }
            if old(ctx).is_root(self) {
                assert forall|id: ElementIdx, k: int|
                    ctx.contains(id) && 0 <= k < ctx.nodes()[id].children@.len() implies (
                #[trigger] ctx.nodes()[id].children@[k]) != self by {
                    if id != self {
                        assert(before[id].children@[k] == ctx.nodes()[id].children@[k]);
                    }
                }
            } else {
                let (id, k) = choose|id: ElementIdx, k: int|
                    old(ctx).contains(id) && 0 <= k < before[id].children@.len()
                        && #[trigger] before[id].children@[k] == self;
                assert(old(ctx).ranks()[before[id].children@[k]] < old(ctx).ranks()[id]);
                assert(ctx.nodes()[id].children@[k] == self);
            }
            if old(ctx).is_forest() && (unclaimed(*old(ctx), children@) || free_for(
                *old(ctx),
                self,
                children@,
            )) {
                assert forall|k: int, a: ElementIdx, i: int|
                    0 <= k < kids@.len() && before.dom().contains(a) && a != self && 0 <= i
                        < before[a].children@.len() implies #[trigger] before[a].children@[i]
                    != #[trigger] kids@[k] by {
                    if unclaimed(*old(ctx), children@) {
                        assert(old(ctx).is_root(kids@[k]));
                    }
                }
                lemma_adopt_forest(before, ctx.nodes(), self, kids@);
            }
        }
        self
    }
}

impl Default for ElementCtx {
    fn default() -> (ctx: ElementCtx)
        ensures
            ctx.wf(),
            ctx.is_forest(),
            ctx.nodes() == NodeMap::empty(),
    {
        ElementCtx::new()
    }
}

} // verus!
