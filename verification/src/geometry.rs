//! Plain two-dimensional values on the character grid: vectors, rectangles,
//! layout directions and paddings.

use vstd::prelude::*;

verus! {

/// The largest coordinate or length the grid can hold.
pub const GRID_MAX: u16 = 0xffff;

/// `v` brought into the range of a grid coordinate: negative values become
/// zero, values above [`GRID_MAX`] become [`GRID_MAX`].
pub open spec fn cap16(v: int) -> u16 {
    if v < 0 {
        0u16
    } else if v > 0xffff {
        0xffffu16
    } else {
        v as u16
    }
}

/// A size or a position on the grid.
#[derive(Clone, Copy, Debug, PartialEq, Eq, Structural)]
pub struct Vec2 {
    pub x: u16,
    pub y: u16,
}

impl Vec2 {
    /// Component-wise sum, capped at [`GRID_MAX`].
    pub open spec fn plus(self, rhs: Vec2) -> Vec2 {
        Vec2 { x: cap16(self.x + rhs.x), y: cap16(self.y + rhs.y) }
    }

    /// Component-wise difference, never below zero.
    pub open spec fn minus(self, rhs: Vec2) -> Vec2 {
        Vec2 { x: cap16(self.x - rhs.x), y: cap16(self.y - rhs.y) }
    }

    /// Component-wise `min(max(self, lo), hi)`.
    pub open spec fn clamped(self, lo: Vec2, hi: Vec2) -> Vec2 {
        Vec2 {
            x: vstd::math::min(vstd::math::max(self.x as int, lo.x as int), hi.x as int) as u16,
            y: vstd::math::min(vstd::math::max(self.y as int, lo.y as int), hi.y as int) as u16,
        }
    }

    /// The vector with the two components.
    pub fn new(x: u16, y: u16) -> (v: Vec2)
        ensures
            v == (Vec2 { x, y }),
    {
        Vec2 { x, y }
    }

    /// The origin, and the size of nothing.
    pub fn zero() -> (v: Vec2)
        ensures
            v == (Vec2 { x: 0, y: 0 }),
    {
        Vec2 { x: 0, y: 0 }
    }
}

impl Default for Vec2 {
    fn default() -> (v: Vec2)
        ensures
            v == (Vec2 { x: 0, y: 0 }),
    {
        Vec2 { x: 0, y: 0 }
    }
}

/// `glam::U16Vec2::saturating_add`: each component is the `u16` saturating sum
/// of the two arguments' components.
#[verifier::external_body]
pub(crate) fn glam_saturating_add(a: Vec2, b: Vec2) -> (r: Vec2)
    ensures
        r == a.plus(b),
{
    let r = glam::U16Vec2::new(a.x, a.y).saturating_add(glam::U16Vec2::new(b.x, b.y));
    Vec2 { x: r.x, y: r.y }
}

/// `glam::U16Vec2::saturating_sub`: each component is the `u16` saturating
/// difference of the two arguments' components.
#[verifier::external_body]
pub(crate) fn glam_saturating_sub(a: Vec2, b: Vec2) -> (r: Vec2)
    ensures
        r == a.minus(b),
{
    let r = glam::U16Vec2::new(a.x, a.y).saturating_sub(glam::U16Vec2::new(b.x, b.y));
    Vec2 { x: r.x, y: r.y }
}

/// `glam::U16Vec2::clamp`: each component of `v` is raised to at least `lo`
/// and then lowered to at most `hi`. The outside function asks for
/// `lo <= hi` in each component.
#[verifier::external_body]
pub(crate) fn glam_clamp(v: Vec2, lo: Vec2, hi: Vec2) -> (r: Vec2)
    requires
        lo.x <= hi.x,
        lo.y <= hi.y,
    ensures
        r == v.clamped(lo, hi),
{
    let r = glam::U16Vec2::new(v.x, v.y).clamp(
        glam::U16Vec2::new(lo.x, lo.y),
        glam::U16Vec2::new(hi.x, hi.y),
    );
    Vec2 { x: r.x, y: r.y }
}

/// The axis along which a node lays out its children.
#[derive(Clone, Copy, Debug, PartialEq, Eq, Structural)]
pub enum Direction {
    Horizontal,
    Vertical,
}

impl Default for Direction {
    fn default() -> (d: Direction)
        ensures
            d == Direction::Vertical,
    {
        Direction::Vertical
    }
}

/// Space kept free between a node's border and its children.
#[derive(Clone, Copy, Debug, PartialEq, Eq, Structural)]
pub struct Padding {
    pub left: u16,
    pub right: u16,
    pub top: u16,
    pub bottom: u16,
}

impl Padding {
    /// Total padding along x and along y, exact.
    pub open spec fn total_x(self) -> int {
        self.left + self.right
    }

    /// Total padding along y, exact.
    pub open spec fn total_y(self) -> int {
        self.top + self.bottom
    }

    /// The padding's two sums as a vector, capped at [`GRID_MAX`].
    pub open spec fn totals(self) -> Vec2 {
        Vec2 { x: cap16(self.total_x()), y: cap16(self.total_y()) }
    }

    /// The padding with the four sides.
    pub fn new(left: u16, right: u16, top: u16, bottom: u16) -> (p: Padding)
        ensures
            p == (Padding { left, right, top, bottom }),
    {
        Padding { left, right, top, bottom }
    }

    /// The same padding on all four sides.
    pub fn uniform(value: u16) -> (p: Padding)
        ensures
            p == (Padding { left: value, right: value, top: value, bottom: value }),
    {
        Padding { left: value, right: value, top: value, bottom: value }
    }

    /// The padding of both sides per dimension, up to the grid's largest
    /// length.
    pub fn sums(self) -> (v: Vec2)
        ensures
            v == self.totals(),
    {
        Vec2 {
            x: self.left.saturating_add(self.right),
            y: self.top.saturating_add(self.bottom),
        }
    }
}

impl Default for Padding {
    fn default() -> (p: Padding)
        ensures
            p == (Padding { left: 0, right: 0, top: 0, bottom: 0 }),
    {
        Padding { left: 0, right: 0, top: 0, bottom: 0 }
    }
}

/// The content area of a node of size `size`: what is left of it inside the
/// padding, zero where the padding is larger than the node.
pub open spec fn inner_area(size: Vec2, padding: Padding) -> Vec2 {
    Vec2 { x: cap16(size.x - padding.total_x()), y: cap16(size.y - padding.total_y()) }
}

/// Computes [`inner_area`].
pub fn content_area(size: Vec2, padding: Padding) -> (inner: Vec2)
    ensures
        inner == inner_area(size, padding),
        inner.x <= size.x,
        inner.y <= size.y,
{
    glam_saturating_sub(size, padding.sums())
}

/// A rectangle of cells: `width` columns from `x` on, `height` rows from `y`
/// on.
#[derive(Clone, Copy, Debug, PartialEq, Eq, Structural)]
pub struct Region {
    pub x: u16,
    pub y: u16,
    pub width: u16,
    pub height: u16,
}

impl Region {
    /// First column right of the rectangle, capped at [`GRID_MAX`].
    pub open spec fn right(self) -> u16 {
        cap16(self.x + self.width)
    }

    /// First row below the rectangle, capped at [`GRID_MAX`].
    pub open spec fn bottom(self) -> u16 {
        cap16(self.y + self.height)
    }

    /// Whether the cell in column `cx` and row `cy` belongs to the rectangle.
    pub open spec fn has_cell(self, cx: int, cy: int) -> bool {
        self.x <= cx < self.x + self.width && self.y <= cy < self.y + self.height
    }

    /// Whether every cell of `self` is a cell of `outer`.
    pub open spec fn within(self, outer: Region) -> bool {
        forall|cx: int, cy: int| self.has_cell(cx, cy) ==> outer.has_cell(cx, cy)
    }

    /// The rectangle both have in common: it starts at the larger of the two
    /// corners and ends at the smaller of the two far edges, with no width or
    /// no height where they do not overlap.
    pub open spec fn intersection(self, other: Region) -> Region {
        let x1 = vstd::math::max(self.x as int, other.x as int);
        let y1 = vstd::math::max(self.y as int, other.y as int);
        let x2 = vstd::math::min(self.right() as int, other.right() as int);
        let y2 = vstd::math::min(self.bottom() as int, other.bottom() as int);
        Region { x: x1 as u16, y: y1 as u16, width: cap16(x2 - x1), height: cap16(y2 - y1) }
    }

    /// The rectangle with the corner and the extent.
    pub fn new(x: u16, y: u16, width: u16, height: u16) -> (r: Region)
        ensures
            r == (Region { x, y, width, height }),
    {
        Region { x, y, width, height }
    }

    /// The rectangle at `position` with extent `size`.
    pub open spec fn at(position: Vec2, size: Vec2) -> Region {
        Region { x: position.x, y: position.y, width: size.x, height: size.y }
    }

    /// The cells that `self` and `other` share.
    pub fn intersect(self, other: Region) -> (r: Region)
        ensures
            r == self.intersection(other),
            r.within(self),
            r.within(other),
    {
        let r = rect_intersection(self, other);
        proof {
            lemma_intersection_within(self, other);
        }
        r
    }
}

/// `ratatui::layout::Rect::intersection`, on the four numbers of each
/// rectangle: the result's corner is the component-wise larger corner, its
/// far edges are the smaller of the saturating far edges, and its extent is
/// their saturating difference.
#[verifier::external_body]
pub(crate) fn rect_intersection(a: Region, b: Region) -> (r: Region)
    ensures
        r == a.intersection(b),
{
    let ra = ratatui::layout::Rect { x: a.x, y: a.y, width: a.width, height: a.height };
    let rb = ratatui::layout::Rect { x: b.x, y: b.y, width: b.width, height: b.height };
    let r = ra.intersection(rb);
    Region { x: r.x, y: r.y, width: r.width, height: r.height }
}

/// An intersection holds no cell that is missing from either operand.
pub proof fn lemma_intersection_within(a: Region, b: Region)
    ensures
        a.intersection(b).within(a),
        a.intersection(b).within(b),
{
}

} // verus!
