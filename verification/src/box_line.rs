//! A line against a rectangle, as far as it is decided without
//! arithmetic: from which sides of the rectangle the line crosses, which
//! corner of the rectangle the line cuts off.
//!
//! The rectangle is `[0, dx] x [0, dy]`. The line meets each of the four
//! sides, extended to a line, in one point; such a crossing counts where
//! it lies on the side itself.

use vstd::prelude::*;

verus! {

/// A corner of the rectangle.
#[derive(Clone, Copy, Debug, PartialEq, Eq, Structural)]
pub enum Corner {
    /// `(0, 0)`
    LowLow,
    /// `(0, dy)`
    LowHigh,
    /// `(dx, 0)`
    HighLow,
    /// `(dx, dy)`
    HighHigh,
}

/// A side of the rectangle.
#[derive(Clone, Copy, Debug, PartialEq, Eq, Structural)]
pub enum Edge {
    Left,
    Right,
    Bottom,
    Top,
}

/// Where a line crosses the sides of the rectangle.
#[derive(Clone, Copy, Debug)]
pub struct Crossings {
    /// The line crosses the left side.
    pub left: bool,
    /// The line crosses the right side.
    pub right: bool,
    /// The line crosses the bottom side.
    pub bottom: bool,
    /// The line crosses the top side.
    pub top: bool,
    /// The crossing of the left side lies higher than that of the right.
    pub falling: bool,
    /// The heights of the crossings of the left and the right side add up
    /// to more than `dy`.
    pub upper: bool,
    /// The crossing of the bottom side lies farther right than that of the
    /// top side.
    pub leaning: bool,
    /// The crossings of the bottom and the top side add up to more than
    /// `dx`.
    pub far: bool,
}

impl Corner {
    /// Whether the corner is an end of the side.
    pub open spec fn on(self, edge: Edge) -> bool {
        match (self, edge) {
            (Corner::LowLow, Edge::Left) => true,
            (Corner::LowLow, Edge::Bottom) => true,
            (Corner::LowHigh, Edge::Left) => true,
            (Corner::LowHigh, Edge::Top) => true,
            (Corner::HighLow, Edge::Right) => true,
            (Corner::HighLow, Edge::Bottom) => true,
            (Corner::HighHigh, Edge::Right) => true,
            (Corner::HighHigh, Edge::Top) => true,
            _ => false,
        }
    }
}

impl Crossings {
    /// Whether the line crosses the side.
    pub open spec fn crosses(&self, edge: Edge) -> bool {
        match edge {
            Edge::Left => self.left,
            Edge::Right => self.right,
            Edge::Bottom => self.bottom,
            Edge::Top => self.top,
        }
    }

    /// Number of sides that the line crosses.
    pub open spec fn count(&self) -> int {
        (if self.left { 1int } else { 0int }) + (if self.right { 1int } else { 0int }) + (
        if self.bottom { 1int } else { 0int }) + (if self.top { 1int } else { 0int })
    }

    /// The corner that a line through two opposite sides cuts off: the
    /// one on the side of the line where less of the rectangle lies.
    /// `first_higher` says that the first crossing lies farther along its
    /// side than the second, `beyond` that together they lie beyond the
    /// middle.
    pub open spec fn opposite_corner(first_higher: bool, beyond: bool) -> Corner {
        if first_higher {
            if beyond {
                Corner::HighHigh
            } else {
                Corner::LowLow
            }
        } else {
            if beyond {
                Corner::HighLow
            } else {
                Corner::LowHigh
            }
        }
    }

    /// The corner that the line cuts off, `None` where the line crosses
    /// fewer than two sides. Of the pairs of crossed sides the first in
    /// this order decides: left and right, left and bottom, left and top,
    /// right and bottom, right and top, bottom and top.
    pub open spec fn corner(&self) -> Option<Corner> {
        if self.left && self.right {
            Some(Self::opposite_corner(self.falling, self.upper))
        } else if self.left && self.bottom {
            Some(Corner::LowLow)
        } else if self.left && self.top {
            Some(Corner::LowHigh)
        } else if self.right && self.bottom {
            Some(Corner::HighLow)
        } else if self.right && self.top {
            Some(Corner::HighHigh)
        } else if self.bottom && self.top {
            Some(Self::opposite_corner(self.leaning, self.far))
        } else {
            None
        }
    }

    /// Whether the line misses the rectangle: it crosses no side.
    pub fn misses(&self) -> (r: bool)
        ensures
            r == (self.count() == 0),
    {
        !self.left && !self.right && !self.bottom && !self.top
    }

    /// The corner of the rectangle that the line cuts off, `None` where
    /// the line crosses fewer than two sides.
    pub fn near_corner(&self) -> (c: Option<Corner>)
        ensures
            c == self.corner(),
            c.is_some() == (self.count() >= 2),
    {
        if self.left && self.right {
            Some(
                if self.falling {
                    if self.upper {
                        Corner::HighHigh
                    } else {
                        Corner::LowLow
                    }
                } else {
                    if self.upper {
                        Corner::HighLow
                    } else {
                        Corner::LowHigh
                    }
                },
            )
        } else if self.left && self.bottom {
            Some(Corner::LowLow)
        } else if self.left && self.top {
            Some(Corner::LowHigh)
        } else if self.right && self.bottom {
            Some(Corner::HighLow)
        } else if self.right && self.top {
            Some(Corner::HighHigh)
        } else if self.bottom && self.top {
            Some(
                if self.leaning {
                    if self.far {
                        Corner::HighHigh
                    } else {
                        Corner::LowLow
                    }
                } else {
                    if self.far {
                        Corner::HighLow
                    } else {
                        Corner::LowHigh
                    }
                },
            )
        } else {
            None
        }
    }
}

/// A line that crosses exactly two sides, and those next to each other,
/// cuts off the corner in which the two sides meet.
pub proof fn lemma_adjacent_sides_give_their_corner(x: Crossings, a: Edge, b: Edge)
    requires
        x.count() == 2,
        x.crosses(a) && x.crosses(b),
        (a == Edge::Left || a == Edge::Right) && (b == Edge::Bottom || b == Edge::Top),
    ensures
        x.corner() matches Some(c) && c.on(a) && c.on(b),
{
}

} // verus!
