//! Lists of children as they are handed to what builds a tree.

use vstd::prelude::*;

verus! {

/// Marks a list of children that comes from an iterator.
pub struct IteratorMarker;

/// A source of items, taken as a list of children.
pub struct UiIterator<I>(pub I);

/// Sources that can be taken as a list of children.
pub trait AsUiIter: Sized {
    fn ui(self) -> UiIterator<Self>;
}

impl<T> AsUiIter for Vec<T> {
    fn ui(self) -> (list: UiIterator<Vec<T>>)
        ensures
            list.0 == self,
    {
        UiIterator(self)
    }
}

} // verus!
