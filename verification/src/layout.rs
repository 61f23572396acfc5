//! The layout entry point: the three passes, one after the other, from one
//! root.

use crate::fit::fit_sizes;
use crate::grow::grow_sizes;
use crate::position::positions;
use crate::store::{
    lemma_same_shape_trans, ElementCtx, ElementIdx, LayoutError, NodeMap, RankMap,
};
use crate::tree::lemma_same_shape_forest;
use vstd::prelude::*;

verus! {

/// The node records after a layout of the subtree of `root`: sizes from the
/// children up, leftover space from the parents down, then positions.
pub open spec fn layout(nodes: NodeMap, rank: RankMap, root: ElementIdx) -> NodeMap {
    positions(grow_sizes(fit_sizes(nodes, rank, root), rank, root), rank, root)
}

impl ElementCtx {
    /// Lays out the subtree of `element`. A handle that names no node is
    /// reported, and nothing changes.
    pub fn calculate_layout(&mut self, element: ElementIdx) -> (r: Result<(), LayoutError>)
        requires
            old(self).wf(),
        ensures
            r is Ok <==> old(self).contains(element),
            r is Ok ==> final(self).nodes() == layout(
                old(self).nodes(),
                old(self).ranks(),
                element,
            ),
            r matches Err(e) ==> e == LayoutError::InvalidHandle && final(self).nodes() == old(
                self,
            ).nodes(),
            final(self).resized_from(*old(self)),
            final(self).wf(),
            old(self).is_forest() ==> final(self).is_forest(),
    {
        if !self.has(element) {
            return Err(LayoutError::InvalidHandle);
        }
        self.calculate_fit_sizes(element);
        let ghost fitted = *self;
        self.calculate_grow_sizes(element);
        let ghost grown = *self;
        proof {
            lemma_same_shape_trans(old(self).nodes(), fitted.nodes(), grown.nodes());
        }
        self.calculate_positions(element);
        proof {
            lemma_same_shape_trans(old(self).nodes(), grown.nodes(), self.nodes());
            if old(self).is_forest() {
                lemma_same_shape_forest(old(self).nodes(), self.nodes());
            }
        }
        Ok(())
    }
}

} // verus!
