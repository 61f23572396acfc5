//! Sizing policies and the per-node layout parameters.

use crate::geometry::{Direction, Padding};
use vstd::prelude::*;

verus! {

/// How one dimension of a node gets its size.
#[derive(Clone, Copy, Debug, PartialEq, Eq, Structural)]
pub enum Size {
    /// Exactly this many cells.
    Fixed(u16),
    /// As large as the children need.
    Fit,
    /// A fair share of what the parent has left over.
    Grow,
}

impl Size {
    /// Whether a node with this policy holds its children's sizes down to its
    /// own content area: every policy but `Fit`.
    pub open spec fn clamps(self) -> bool {
        !(self is Fit)
    }

    /// Whether the policy is `Grow`.
    pub open spec fn grows(self) -> bool {
        self is Grow
    }

    /// Whether a node with this policy holds its children down to its
    /// content area.
    pub fn should_clamp(&self) -> (b: bool)
        ensures
            b == self.clamps(),
    {
        match self {
            Size::Fixed(_) => true,
            Size::Fit => false,
            Size::Grow => true,
        }
    }

    /// Whether the policy is `Grow`.
    pub fn is_grow(&self) -> (b: bool)
        ensures
            b == self.grows(),
    {
        matches!(self, Size::Grow)
    }
}

impl Default for Size {
    fn default() -> (s: Size)
        ensures
            s == Size::Fit,
    {
        Size::Fit
    }
}

/// What a node asks of the layout: a policy per dimension, the direction in
/// which its children follow each other, its padding and the gap between
/// consecutive children.
#[derive(Clone, Copy, Debug, PartialEq, Eq, Structural)]
pub struct LayoutParams {
    pub width: Size,
    pub height: Size,
    pub direction: Direction,
    pub padding: Padding,
    pub gap: u16,
}

impl LayoutParams {
    /// The policy of the dimension that runs along `dir`.
    pub open spec fn main_policy(self, dir: Direction) -> Size {
        match dir {
            Direction::Horizontal => self.width,
            Direction::Vertical => self.height,
        }
    }

    /// The policy of the dimension that runs across `dir`.
    pub open spec fn cross_policy(self, dir: Direction) -> Size {
        match dir {
            Direction::Horizontal => self.height,
            Direction::Vertical => self.width,
        }
    }

    /// The policy of the dimension that runs along `dir`.
    pub fn main_size(&self, dir: Direction) -> (s: Size)
        ensures
            s == self.main_policy(dir),
    {
        match dir {
            Direction::Horizontal => self.width,
            Direction::Vertical => self.height,
        }
    }

    /// The policy of the dimension that runs across `dir`.
    pub fn cross_size(&self, dir: Direction) -> (s: Size)
        ensures
            s == self.cross_policy(dir),
    {
        match dir {
            Direction::Horizontal => self.height,
            Direction::Vertical => self.width,
        }
    }
}

impl Default for LayoutParams {
    fn default() -> (p: LayoutParams)
        ensures
            p == (LayoutParams {
                width: Size::Fit,
                height: Size::Fit,
                direction: Direction::Vertical,
                padding: Padding { left: 0, right: 0, top: 0, bottom: 0 },
                gap: 0,
            }),
    {
        LayoutParams {
            width: Size::Fit,
            height: Size::Fit,
            direction: Direction::Vertical,
            padding: Padding { left: 0, right: 0, top: 0, bottom: 0 },
            gap: 0,
        }
    }
}

} // verus!
