//! The closed set of shapes that a query can involve, and the rule that
//! picks the test for a pair of them.
//!
//! The shapes with real coordinates are supplied by the caller: `P` is a
//! point, `L` a line and `X` a box.

use vstd::prelude::*;
use crate::grid::GridCollider;
use crate::tree::BinaryTree;

verus! {

/// A shape.
pub enum Collider<P, L, X> {
    Point { p: P },
    Line(L),
    Grid(GridCollider),
    Box(X),
    BoxTree(BinaryTree<X>),
}

/// Which of the five shapes a collider is.
#[derive(Clone, Copy, Debug, PartialEq, Eq, Structural)]
pub enum ColliderKind {
    Point,
    Line,
    Grid,
    Box,
    BoxTree,
}

/// A shape with the rigid body that owns it. Without a body the shape is
/// given in world coordinates.
pub struct ColliderPackage<'a, P, L, X, R> {
    pub collider: &'a Collider<P, L, X>,
    pub rigid_body: Option<&'a R>,
}

/// One of the two colliders of a query.
#[derive(Clone, Copy, Debug, PartialEq, Eq, Structural)]
pub enum Side {
    A,
    B,
}

/// The test that decides a query.
#[derive(Clone, Copy, Debug, PartialEq, Eq, Structural)]
pub enum Test {
    /// A point against a box.
    PointBox,
    /// A point against a grid.
    PointGrid,
    /// A point against the boxes of a tree.
    PointTree,
    /// A line against a box.
    LineBox,
    /// A line against a grid.
    LineGrid,
    /// A line against the boxes of a tree.
    LineTree,
    /// A box against a box.
    BoxBox,
    /// A box against the boxes of a tree.
    BoxTree,
    /// The boxes of a tree against the boxes of another tree.
    TreeTree,
}

/// How a query is decided: which test runs, and which collider is the one
/// that the other is tested against. The test runs in the frame of that
/// collider's body.
#[derive(Clone, Copy, Debug, PartialEq, Eq, Structural)]
pub struct Dispatch {
    pub test: Test,
    pub target: Side,
}

/// The collider was asked for the grid that it holds, and it holds none.
#[derive(Clone, Copy, Debug, PartialEq, Eq, Structural)]
pub enum ColliderError {
    NotAGrid,
}

impl ColliderError {
    /// What went wrong, in words.
    pub fn message(&self) -> (s: &'static str)
        ensures
            s == "The collider was not a grid collider",
    {
        "The collider was not a grid collider"
    }
}

impl Side {
    /// The other collider.
    pub open spec fn other(self) -> Side {
        match self {
            Side::A => Side::B,
            Side::B => Side::A,
        }
    }
}

impl ColliderKind {
    /// Where the kind stands in the order from the shape that is always
    /// the one tested down to the shape that is always tested against:
    /// point, line, box, tree, grid.
    pub open spec fn rank(self) -> int {
        match self {
            ColliderKind::Point => 0,
            ColliderKind::Line => 1,
            ColliderKind::Box => 2,
            ColliderKind::BoxTree => 3,
            ColliderKind::Grid => 4,
        }
    }
}

/// Whether no test is defined for the pair: a grid against a box, a tree
/// or another grid.
pub open spec fn undefined_pair(a: ColliderKind, b: ColliderKind) -> bool {
    ||| a == ColliderKind::Grid && b.rank() >= 2
    ||| b == ColliderKind::Grid && a.rank() >= 2
}

/// Whether the pair never collides: neither shape has an inside.
pub open spec fn degenerate_pair(a: ColliderKind, b: ColliderKind) -> bool {
    a.rank() <= 1 && b.rank() <= 1
}

/// The test for a query shape of kind `query` against a shape of kind
/// `target`, where `query` comes before `target` in the order of kinds or
/// is of the same kind.
pub open spec fn test_for(query: ColliderKind, target: ColliderKind) -> Test {
    match (query, target) {
        (ColliderKind::Point, ColliderKind::Box) => Test::PointBox,
        (ColliderKind::Point, ColliderKind::Grid) => Test::PointGrid,
        (ColliderKind::Point, ColliderKind::BoxTree) => Test::PointTree,
        (ColliderKind::Line, ColliderKind::Box) => Test::LineBox,
        (ColliderKind::Line, ColliderKind::Grid) => Test::LineGrid,
        (ColliderKind::Line, ColliderKind::BoxTree) => Test::LineTree,
        (ColliderKind::Box, ColliderKind::Box) => Test::BoxBox,
        (ColliderKind::Box, ColliderKind::BoxTree) => Test::BoxTree,
        _ => Test::TreeTree,
    }
}

/// How the query of a collider of kind `a` against one of kind `b` is
/// decided: `None` for a pair that never collides; otherwise the shape
/// that comes later in the order of kinds is the target, and of two shapes
/// of one kind the first.
pub open spec fn plan(a: ColliderKind, b: ColliderKind) -> Option<Dispatch> {
    if degenerate_pair(a, b) {
        None
    } else if a.rank() >= b.rank() {
        Some(Dispatch { test: test_for(b, a), target: Side::A })
    } else {
        Some(Dispatch { test: test_for(a, b), target: Side::B })
    }
}

/// Swapping the two colliders of a query leaves the test as it is and,
/// where the shapes are of different kinds, swaps the target.
pub proof fn lemma_plan_symmetric(a: ColliderKind, b: ColliderKind)
    requires
        !undefined_pair(a, b),
    ensures
        !undefined_pair(b, a),
        plan(a, b).is_none() == plan(b, a).is_none(),
        plan(a, b) matches Some(d) ==> plan(b, a).unwrap().test == d.test && (a != b
            ==> plan(b, a).unwrap().target == d.target.other()),
{
}

/// Whether a test is defined for the pair.
pub fn is_supported(a: ColliderKind, b: ColliderKind) -> (r: bool)
    ensures
        r == !undefined_pair(a, b),
{
    let a_solid = match a {
        ColliderKind::Point => false,
        ColliderKind::Line => false,
        _ => true,
    };
    let b_solid = match b {
        ColliderKind::Point => false,
        ColliderKind::Line => false,
        _ => true,
    };
    let a_grid = match a {
        ColliderKind::Grid => true,
        _ => false,
    };
    let b_grid = match b {
        ColliderKind::Grid => true,
        _ => false,
    };
    !((a_grid && b_solid) || (b_grid && a_solid))
}

/// Picks the test for a query of a collider of kind `a` against one of
/// kind `b`, `None` where the pair never collides.
pub fn dispatch(a: ColliderKind, b: ColliderKind) -> (d: Option<Dispatch>)
    requires
        !undefined_pair(a, b),
    ensures
        d == plan(a, b),
{
    match (a, b) {
        (ColliderKind::Point, ColliderKind::Box) => Some(
            Dispatch { test: Test::PointBox, target: Side::B },
        ),
        (ColliderKind::Box, ColliderKind::Point) => Some(
            Dispatch { test: Test::PointBox, target: Side::A },
        ),
        (ColliderKind::Grid, ColliderKind::Point) => Some(
            Dispatch { test: Test::PointGrid, target: Side::A },
        ),
        (ColliderKind::Point, ColliderKind::Grid) => Some(
            Dispatch { test: Test::PointGrid, target: Side::B },
        ),
        (ColliderKind::BoxTree, ColliderKind::Point) => Some(
            Dispatch { test: Test::PointTree, target: Side::A },
        ),
        (ColliderKind::Point, ColliderKind::BoxTree) => Some(
            Dispatch { test: Test::PointTree, target: Side::B },
        ),
        (ColliderKind::Line, ColliderKind::Box) => Some(
            Dispatch { test: Test::LineBox, target: Side::B },
        ),
        (ColliderKind::Box, ColliderKind::Line) => Some(
            Dispatch { test: Test::LineBox, target: Side::A },
        ),
        (ColliderKind::Line, ColliderKind::Grid) => Some(
            Dispatch { test: Test::LineGrid, target: Side::B },
        ),
        (ColliderKind::Grid, ColliderKind::Line) => Some(
            Dispatch { test: Test::LineGrid, target: Side::A },
        ),
        (ColliderKind::BoxTree, ColliderKind::Line) => Some(
            Dispatch { test: Test::LineTree, target: Side::A },
        ),
        (ColliderKind::Line, ColliderKind::BoxTree) => Some(
            Dispatch { test: Test::LineTree, target: Side::B },
        ),
        (ColliderKind::Box, ColliderKind::Box) => Some(
            Dispatch { test: Test::BoxBox, target: Side::A },
        ),
        (ColliderKind::BoxTree, ColliderKind::Box) => Some(
            Dispatch { test: Test::BoxTree, target: Side::A },
        ),
        (ColliderKind::Box, ColliderKind::BoxTree) => Some(
            Dispatch { test: Test::BoxTree, target: Side::B },
        ),
        (ColliderKind::BoxTree, ColliderKind::BoxTree) => Some(
            Dispatch { test: Test::TreeTree, target: Side::A },
        ),
        _ => None,
    }
}

impl<P, L, X> Collider<P, L, X> {
    /// Which of the five shapes this is.
    pub open spec fn spec_kind(&self) -> ColliderKind {
        match self {
            Collider::Point { .. } => ColliderKind::Point,
            Collider::Line(_) => ColliderKind::Line,
            Collider::Grid(_) => ColliderKind::Grid,
            Collider::Box(_) => ColliderKind::Box,
            Collider::BoxTree(_) => ColliderKind::BoxTree,
        }
    }

    /// Which of the five shapes this is.
    pub fn kind(&self) -> (k: ColliderKind)
        ensures
            k == self.spec_kind(),
    {
        match self {
            Collider::Point { .. } => ColliderKind::Point,
            Collider::Line(_) => ColliderKind::Line,
            Collider::Grid(_) => ColliderKind::Grid,
            Collider::Box(_) => ColliderKind::Box,
            Collider::BoxTree(_) => ColliderKind::BoxTree,
        }
    }

    /// The grid, where the collider is one.
    pub fn get_grid_collider(&self) -> (r: Result<&GridCollider, ColliderError>)
        ensures
            match *self {
                Collider::Grid(g) => r == Ok::<&GridCollider, ColliderError>(&g),
                _ => r == Err::<&GridCollider, ColliderError>(ColliderError::NotAGrid),
            },
    {
        match self {
            Collider::Grid(c) => Ok(c),
            _ => Err(ColliderError::NotAGrid),
        }
    }

    /// The grid, for changing it, where the collider is one.
    pub fn get_grid_collider_mut(&mut self) -> (r: Result<&mut GridCollider, ColliderError>)
        ensures
            match *old(self) {
                Collider::Grid(g) => r.is_ok() && *r.unwrap() == g && *final(self)
                    == Collider::<P, L, X>::Grid(*final(r.unwrap())),
                _ => r.is_err() && *final(self) == *old(self),
            },
    {
        match self {
            Collider::Grid(c) => Ok(c),
            _ => Err(ColliderError::NotAGrid),
        }
    }
}

impl<'a, P, L, X, R> Clone for ColliderPackage<'a, P, L, X, R> {
    fn clone(&self) -> (r: Self)
        ensures
            r == *self,
    {
        ColliderPackage { collider: self.collider, rigid_body: self.rigid_body }
    }
}

impl<'a, P, L, X, R> Copy for ColliderPackage<'a, P, L, X, R> {

}

impl<'a, P, L, X, R> ColliderPackage<'a, P, L, X, R> {
    /// A shape with the body that owns it.
    pub fn with_body(collider: &'a Collider<P, L, X>, rigid_body: &'a R) -> (p: Self)
        ensures
            p.collider == collider,
            p.rigid_body == Some(rigid_body),
    {
        ColliderPackage { collider, rigid_body: Some(rigid_body) }
    }

    /// A shape in world coordinates.
    pub fn in_world(collider: &'a Collider<P, L, X>) -> (p: Self)
        ensures
            p.collider == collider,
            p.rigid_body.is_none(),
    {
        ColliderPackage { collider, rigid_body: None }
    }
}

} // verus!
