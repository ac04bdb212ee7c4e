//! The corners and edges of a box, by their place on the box.
//!
//! A corner is given by the ends of the box at which it lies, an edge by
//! the corner at its low end and the axis along which it runs. What these
//! are in coordinates depends on the corner and the dimensions of the box.

use vstd::prelude::*;

verus! {

/// An axis of the box.
#[derive(Clone, Copy, Debug, PartialEq, Eq, Structural)]
pub enum Axis {
    X,
    Y,
    Z,
}

/// A corner of a box: for each axis, whether the corner lies at the high
/// end of the box.
#[derive(Clone, Copy, Debug, PartialEq, Eq, Structural)]
pub struct BoxCorner {
    pub x: bool,
    pub y: bool,
    pub z: bool,
}

/// An edge of a box: it runs from `from` along `axis` to the high end of
/// the box.
#[derive(Clone, Copy, Debug, PartialEq, Eq, Structural)]
pub struct BoxEdge {
    pub from: BoxCorner,
    pub axis: Axis,
}

impl BoxCorner {
    /// Whether the corner lies at the high end of the box along `axis`.
    pub open spec fn high(self, axis: Axis) -> bool {
        match axis {
            Axis::X => self.x,
            Axis::Y => self.y,
            Axis::Z => self.z,
        }
    }
}

impl BoxEdge {
    /// The corner at the high end of the edge.
    pub open spec fn to(self) -> BoxCorner {
        match self.axis {
            Axis::X => BoxCorner { x: true, y: self.from.y, z: self.from.z },
            Axis::Y => BoxCorner { x: self.from.x, y: true, z: self.from.z },
            Axis::Z => BoxCorner { x: self.from.x, y: self.from.y, z: true },
        }
    }

    /// The edge starts at the low end of the box along its axis.
    pub open spec fn wf(self) -> bool {
        !self.from.high(self.axis)
    }
}

/// The eight corners: the low corner, its three neighbours, their three
/// common neighbours, and the high corner.
pub open spec fn corners() -> Seq<BoxCorner> {
    seq![
        BoxCorner { x: false, y: false, z: false },
        BoxCorner { x: true, y: false, z: false },
        BoxCorner { x: false, y: true, z: false },
        BoxCorner { x: false, y: false, z: true },
        BoxCorner { x: true, y: true, z: false },
        BoxCorner { x: true, y: false, z: true },
        BoxCorner { x: false, y: true, z: true },
        BoxCorner { x: true, y: true, z: true },
    ]
}

/// The edge from the corner with the given ends along `axis`.
pub open spec fn edge_at(x: bool, y: bool, z: bool, axis: Axis) -> BoxEdge {
    BoxEdge { from: BoxCorner { x, y, z }, axis }
}

/// The twelve edges: the three at the low corner first, then the others
/// axis by axis.
pub open spec fn edges() -> Seq<BoxEdge> {
    seq![
        edge_at(false, false, false, Axis::X),
        edge_at(false, false, false, Axis::Y),
        edge_at(false, false, false, Axis::Z),
        edge_at(false, true, false, Axis::X),
        edge_at(false, false, true, Axis::X),
        edge_at(false, true, true, Axis::X),
        edge_at(true, false, false, Axis::Y),
        edge_at(false, false, true, Axis::Y),
        edge_at(true, false, true, Axis::Y),
        edge_at(true, false, false, Axis::Z),
        edge_at(false, true, false, Axis::Z),
        edge_at(true, true, false, Axis::Z),
    ]
}

/// Every corner of a box is listed, and listed once.
pub proof fn lemma_corners_complete(c: BoxCorner) -> (k: int)
    ensures
        0 <= k < 8,
        corners().len() == 8,
        corners()[k] == c,
        forall|j: int| 0 <= j < 8 && corners()[j] == c ==> j == k,
{
    let k = if !c.x && !c.y && !c.z {
        0int
    } else if c.x && !c.y && !c.z {
        1int
    } else if !c.x && c.y && !c.z {
        2int
    } else if !c.x && !c.y && c.z {
        3int
    } else if c.x && c.y && !c.z {
        4int
    } else if c.x && !c.y && c.z {
        5int
    } else if !c.x && c.y && c.z {
        6int
    } else {
        7int
    };
    k
}

/// Every edge of a box is listed, and listed once; and what is listed is
/// an edge.
pub proof fn lemma_edges_complete(e: BoxEdge) -> (k: int)
    requires
        e.wf(),
    ensures
        0 <= k < 12,
        edges().len() == 12,
        edges()[k] == e,
        forall|j: int| 0 <= j < 12 && edges()[j] == e ==> j == k,
        forall|j: int| 0 <= j < 12 ==> (#[trigger] edges()[j]).wf(),
{
    let c = e.from;
    let k = match e.axis {
        Axis::X => if !c.y && !c.z {
            0int
        } else if c.y && !c.z {
            3int
        } else if !c.y && c.z {
            4int
        } else {
            5int
        },
        Axis::Y => if !c.x && !c.z {
            1int
        } else if c.x && !c.z {
            6int
        } else if !c.x && c.z {
            7int
        } else {
            8int
        },
        Axis::Z => if !c.x && !c.y {
            2int
        } else if c.x && !c.y {
            9int
        } else if !c.x && c.y {
            10int
        } else {
            11int
        },
    };
    k
}

/// The eight corners of a box.
pub fn get_points() -> (points: Vec<BoxCorner>)
    ensures
        points@ == corners(),
{
    let mut points: Vec<BoxCorner> = Vec::new();
    points.push(BoxCorner { x: false, y: false, z: false });
    points.push(BoxCorner { x: true, y: false, z: false });
    points.push(BoxCorner { x: false, y: true, z: false });
    points.push(BoxCorner { x: false, y: false, z: true });
    points.push(BoxCorner { x: true, y: true, z: false });
    points.push(BoxCorner { x: true, y: false, z: true });
    points.push(BoxCorner { x: false, y: true, z: true });
    points.push(BoxCorner { x: true, y: true, z: true });
    assert(points@ =~= corners());
    points
}

/// The twelve edges of a box.
pub fn get_lines() -> (lines: Vec<BoxEdge>)
    ensures
        lines@ == edges(),
{
    let low = BoxCorner { x: false, y: false, z: false };
    let mut lines: Vec<BoxEdge> = Vec::new();
    lines.push(BoxEdge { from: low, axis: Axis::X });
    lines.push(BoxEdge { from: low, axis: Axis::Y });
    lines.push(BoxEdge { from: low, axis: Axis::Z });
    lines.push(BoxEdge { from: BoxCorner { x: false, y: true, z: false }, axis: Axis::X });
    lines.push(BoxEdge { from: BoxCorner { x: false, y: false, z: true }, axis: Axis::X });
    lines.push(BoxEdge { from: BoxCorner { x: false, y: true, z: true }, axis: Axis::X });
    lines.push(BoxEdge { from: BoxCorner { x: true, y: false, z: false }, axis: Axis::Y });
    lines.push(BoxEdge { from: BoxCorner { x: false, y: false, z: true }, axis: Axis::Y });
    lines.push(BoxEdge { from: BoxCorner { x: true, y: false, z: true }, axis: Axis::Y });
    lines.push(BoxEdge { from: BoxCorner { x: true, y: false, z: false }, axis: Axis::Z });
    lines.push(BoxEdge { from: BoxCorner { x: false, y: true, z: false }, axis: Axis::Z });
    lines.push(BoxEdge { from: BoxCorner { x: true, y: true, z: false }, axis: Axis::Z });
    assert(lines@ =~= edges());
    lines
}

} // verus!
