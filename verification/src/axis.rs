//! Axis algebra: sizes and positions in terms of a node's main axis (the one
//! its children follow each other along) and its cross axis.

use crate::geometry::{cap16, Direction, Padding, Region, Vec2};
use vstd::prelude::*;

verus! {

/// A size split into its extent along the main axis and across it.
#[derive(Clone, Copy, Debug, PartialEq, Eq, Structural)]
pub struct AxisSizes {
    pub main_axis: u16,
    pub cross_axis: u16,
}

/// The component of `v` that runs along `dir`.
pub open spec fn main_of(v: Vec2, dir: Direction) -> u16 {
    match dir {
        Direction::Horizontal => v.x,
        Direction::Vertical => v.y,
    }
}

/// The component of `v` that runs across `dir`.
pub open spec fn cross_of(v: Vec2, dir: Direction) -> u16 {
    match dir {
        Direction::Horizontal => v.y,
        Direction::Vertical => v.x,
    }
}

/// `v` with its component along `dir` replaced by `main`.
pub open spec fn with_main(v: Vec2, dir: Direction, main: u16) -> Vec2 {
    match dir {
        Direction::Horizontal => Vec2 { x: main, y: v.y },
        Direction::Vertical => Vec2 { x: v.x, y: main },
    }
}

/// `v` with its component across `dir` replaced by `cross`.
pub open spec fn with_cross(v: Vec2, dir: Direction, cross: u16) -> Vec2 {
    match dir {
        Direction::Horizontal => Vec2 { x: v.x, y: cross },
        Direction::Vertical => Vec2 { x: cross, y: v.y },
    }
}

/// The padding's exact total along `dir`.
pub open spec fn padding_main(padding: Padding, dir: Direction) -> int {
    match dir {
        Direction::Horizontal => padding.total_x(),
        Direction::Vertical => padding.total_y(),
    }
}

/// The padding's exact total across `dir`.
pub open spec fn padding_cross(padding: Padding, dir: Direction) -> int {
    match dir {
        Direction::Horizontal => padding.total_y(),
        Direction::Vertical => padding.total_x(),
    }
}

impl AxisSizes {
    /// `v` split along `dir`.
    pub open spec fn of(v: Vec2, dir: Direction) -> AxisSizes {
        AxisSizes { main_axis: main_of(v, dir), cross_axis: cross_of(v, dir) }
    }

    /// The sizes put together again along `dir`.
    pub open spec fn vec(self, dir: Direction) -> Vec2 {
        match dir {
            Direction::Horizontal => Vec2 { x: self.main_axis, y: self.cross_axis },
            Direction::Vertical => Vec2 { x: self.cross_axis, y: self.main_axis },
        }
    }

    /// The component-wise smaller of the two.
    pub open spec fn lower(self, other: AxisSizes) -> AxisSizes {
        AxisSizes {
            main_axis: if self.main_axis <= other.main_axis {
                self.main_axis
            } else {
                other.main_axis
            },
            cross_axis: if self.cross_axis <= other.cross_axis {
                self.cross_axis
            } else {
                other.cross_axis
            },
        }
    }

    /// `self` with the padding of both sides added on each axis.
    pub open spec fn padded(self, padding: Padding, dir: Direction) -> AxisSizes {
        AxisSizes {
            main_axis: cap16(self.main_axis + padding_main(padding, dir)),
            cross_axis: cap16(self.cross_axis + padding_cross(padding, dir)),
        }
    }

    /// `self` after one more child of size `by`: children add up along the
    /// main axis, and the widest one decides the cross axis.
    pub open spec fn increased(self, by: Vec2, dir: Direction) -> AxisSizes {
        AxisSizes {
            main_axis: cap16(self.main_axis + main_of(by, dir)),
            cross_axis: if self.cross_axis >= cross_of(by, dir) {
                self.cross_axis
            } else {
                cross_of(by, dir)
            },
        }
    }

    /// The smaller extent on each axis.
    pub fn min(self, other: AxisSizes) -> (r: AxisSizes)
        ensures
            r == self.lower(other),
    {
        AxisSizes {
            main_axis: if self.main_axis <= other.main_axis {
                self.main_axis
            } else {
                other.main_axis
            },
            cross_axis: if self.cross_axis <= other.cross_axis {
                self.cross_axis
            } else {
                other.cross_axis
            },
        }
    }

    /// Splits `value` into its extent along `dir` and across it.
    pub fn from_u16vec2(value: Vec2, dir: Direction) -> (r: AxisSizes)
        ensures
            r == AxisSizes::of(value, dir),
    {
        match dir {
            Direction::Horizontal => AxisSizes { main_axis: value.x, cross_axis: value.y },
            Direction::Vertical => AxisSizes { main_axis: value.y, cross_axis: value.x },
        }
    }

    /// Adds the padding of both sides on each axis, up to the grid's
    /// largest length.
    pub fn pad(self, padding: Padding, dir: Direction) -> (r: AxisSizes)
        ensures
            r == self.padded(padding, dir),
    {
        match dir {
            Direction::Horizontal => AxisSizes {
                main_axis: self.main_axis.saturating_add(padding.left).saturating_add(
                    padding.right,
                ),
                cross_axis: self.cross_axis.saturating_add(padding.top).saturating_add(
                    padding.bottom,
                ),
            },
            Direction::Vertical => AxisSizes {
                main_axis: self.main_axis.saturating_add(padding.top).saturating_add(
                    padding.bottom,
                ),
                cross_axis: self.cross_axis.saturating_add(padding.left).saturating_add(
                    padding.right,
                ),
            },
        }
    }

    /// Takes one more child of size `by` in: the sum along `dir`, up to the
    /// grid's largest length, and the largest across it.
    pub fn increase(self, by: Vec2, dir: Direction) -> (r: AxisSizes)
        ensures
            r == self.increased(by, dir),
    {
        match dir {
            Direction::Horizontal => AxisSizes {
                main_axis: self.main_axis.saturating_add(by.x),
                cross_axis: if self.cross_axis >= by.y {
                    self.cross_axis
                } else {
                    by.y
                },
            },
            Direction::Vertical => AxisSizes {
                main_axis: self.main_axis.saturating_add(by.y),
                cross_axis: if self.cross_axis >= by.x {
                    self.cross_axis
                } else {
                    by.x
                },
            },
        }
    }

    /// Puts the two extents together again along `dir`.
    pub fn to_u16vec2(self, dir: Direction) -> (r: Vec2)
        ensures
            r == self.vec(dir),
    {
        match dir {
            Direction::Horizontal => Vec2 { x: self.main_axis, y: self.cross_axis },
            Direction::Vertical => Vec2 { x: self.cross_axis, y: self.main_axis },
        }
    }
}

impl Default for AxisSizes {
    fn default() -> (r: AxisSizes)
        ensures
            r == (AxisSizes { main_axis: 0, cross_axis: 0 }),
    {
        AxisSizes { main_axis: 0, cross_axis: 0 }
    }
}

/// Splits `vec` into its extent along `dir` and across it.
pub fn axify(vec: Vec2, dir: Direction) -> (r: AxisSizes)
    ensures
        r == AxisSizes::of(vec, dir),
{
    AxisSizes::from_u16vec2(vec, dir)
}

/// The offset `init` moved on by the main-axis extent of `size`, capped at
/// the grid's largest coordinate.
pub fn increase_axis(init: u16, dir: Direction, size: Vec2) -> (r: u16)
    ensures
        r == cap16(init + main_of(size, dir)),
{
    match dir {
        Direction::Horizontal => init.saturating_add(size.x),
        Direction::Vertical => init.saturating_add(size.y),
    }
}

/// What is left of `rect` behind `position` along `dir`.
pub open spec fn axis_rect(position: Vec2, dir: Direction, rect: Region) -> Region {
    match dir {
        Direction::Horizontal => Region {
            x: cap16(rect.x + position.x),
            width: cap16(rect.width - position.x),
            ..rect
        },
        Direction::Vertical => Region {
            y: cap16(rect.y + position.y),
            height: cap16(rect.height - position.y),
            ..rect
        },
    }
}

/// Moves the start of `rect` forward by `position` along `dir` and shortens
/// it by as much, down to an empty rectangle.
pub fn get_axis_rect(position: Vec2, dir: Direction, rect: Region) -> (r: Region)
    ensures
        r == axis_rect(position, dir, rect),
{
    match dir {
        Direction::Horizontal => Region {
            x: rect.x.saturating_add(position.x),
            y: rect.y,
            width: rect.width.saturating_sub(position.x),
            height: rect.height,
        },
        Direction::Vertical => Region {
            x: rect.x,
            y: rect.y.saturating_add(position.y),
            width: rect.width,
            height: rect.height.saturating_sub(position.y),
        },
    }
}

/// Splitting a vector by direction and putting it together again gives the
/// vector back, and the other way round.
pub proof fn law_axis_round_trip(v: Vec2, a: AxisSizes, dir: Direction)
    ensures
        AxisSizes::of(v, dir).vec(dir) == v,
        AxisSizes::of(a.vec(dir), dir) == a,
{
}

} // verus!
