use tethys::collider::dispatch;
use tethys::collider::is_supported;
use tethys::collider::Collider;
use tethys::collider::ColliderError;
use tethys::collider::ColliderKind;
use tethys::collider::ColliderPackage;
use tethys::collider::Dispatch;
use tethys::collider::Side;
use tethys::collider::Test;
use tethys::grid::GridCollider;
use tethys::tree::BinaryTree;

type Shape = Collider<(i32, i32, i32), (i32, i32), u8>;

const KINDS: [ColliderKind; 5] =
    [ColliderKind::Point, ColliderKind::Line, ColliderKind::Grid, ColliderKind::Box, ColliderKind::BoxTree];

#[test]
fn pairs_without_an_inside_never_collide() {
    assert_eq!(dispatch(ColliderKind::Point, ColliderKind::Point), None);
    assert_eq!(dispatch(ColliderKind::Point, ColliderKind::Line), None);
    assert_eq!(dispatch(ColliderKind::Line, ColliderKind::Point), None);
    assert_eq!(dispatch(ColliderKind::Line, ColliderKind::Line), None);
}

#[test]
fn grid_against_a_solid_is_not_supported() {
    for other in [ColliderKind::Box, ColliderKind::BoxTree, ColliderKind::Grid] {
        assert!(!is_supported(ColliderKind::Grid, other));
        assert!(!is_supported(other, ColliderKind::Grid));
    }
    let mut supported = 0;
    for a in KINDS {
        for b in KINDS {
            if is_supported(a, b) {
                supported += 1;
            }
        }
    }
    assert_eq!(supported, 20);
}

#[test]
fn the_query_shape_is_tested_against_the_target() {
    let d = |test, target| Some(Dispatch { test, target });
    assert_eq!(dispatch(ColliderKind::Point, ColliderKind::Box), d(Test::PointBox, Side::B));
    assert_eq!(dispatch(ColliderKind::Box, ColliderKind::Point), d(Test::PointBox, Side::A));
    assert_eq!(dispatch(ColliderKind::Point, ColliderKind::Grid), d(Test::PointGrid, Side::B));
    assert_eq!(dispatch(ColliderKind::Grid, ColliderKind::Point), d(Test::PointGrid, Side::A));
    assert_eq!(dispatch(ColliderKind::Point, ColliderKind::BoxTree), d(Test::PointTree, Side::B));
    assert_eq!(dispatch(ColliderKind::BoxTree, ColliderKind::Point), d(Test::PointTree, Side::A));
    assert_eq!(dispatch(ColliderKind::Line, ColliderKind::Box), d(Test::LineBox, Side::B));
    assert_eq!(dispatch(ColliderKind::Box, ColliderKind::Line), d(Test::LineBox, Side::A));
    assert_eq!(dispatch(ColliderKind::Line, ColliderKind::Grid), d(Test::LineGrid, Side::B));
    assert_eq!(dispatch(ColliderKind::Grid, ColliderKind::Line), d(Test::LineGrid, Side::A));
    assert_eq!(dispatch(ColliderKind::Line, ColliderKind::BoxTree), d(Test::LineTree, Side::B));
    assert_eq!(dispatch(ColliderKind::BoxTree, ColliderKind::Line), d(Test::LineTree, Side::A));
    assert_eq!(dispatch(ColliderKind::Box, ColliderKind::Box), d(Test::BoxBox, Side::A));
    assert_eq!(dispatch(ColliderKind::Box, ColliderKind::BoxTree), d(Test::BoxTree, Side::B));
    assert_eq!(dispatch(ColliderKind::BoxTree, ColliderKind::Box), d(Test::BoxTree, Side::A));
    assert_eq!(dispatch(ColliderKind::BoxTree, ColliderKind::BoxTree), d(Test::TreeTree, Side::A));
}

#[test]
fn swapping_the_colliders_keeps_the_test() {
    for a in KINDS {
        for b in KINDS {
            if !is_supported(a, b) {
                continue;
            }
            assert!(is_supported(b, a));
            match (dispatch(a, b), dispatch(b, a)) {
                (None, None) => {}
                (Some(x), Some(y)) => {
                    assert_eq!(x.test, y.test);
                    if a != b {
                        assert_ne!(x.target, y.target);
                    }
                }
                _ => panic!("one way collides and the other does not"),
            }
        }
    }
}

#[test]
fn a_collider_knows_its_kind() {
    assert_eq!(Shape::Point { p: (0, 0, 0) }.kind(), ColliderKind::Point);
    assert_eq!(Shape::Line((0, 1)).kind(), ColliderKind::Line);
    assert_eq!(Shape::Grid(GridCollider::new()).kind(), ColliderKind::Grid);
    assert_eq!(Shape::Box(3).kind(), ColliderKind::Box);
    assert_eq!(Shape::BoxTree(BinaryTree::new(3)).kind(), ColliderKind::BoxTree);
}

#[test]
fn only_a_grid_collider_gives_a_grid() {
    let mut grid = Shape::Grid(GridCollider::with_capacity(1, 1, 1));
    *grid.get_grid_collider_mut().unwrap().get_entry_mut(0, 0, 0).unwrap() = 4;
    assert_eq!(grid.get_grid_collider().unwrap().get_entry(0, 0, 0), 4);
    let mut other = Shape::Box(1);
    assert_eq!(other.get_grid_collider().err(), Some(ColliderError::NotAGrid));
    assert_eq!(other.get_grid_collider_mut().err(), Some(ColliderError::NotAGrid));
    assert_eq!(ColliderError::NotAGrid.message(), "The collider was not a grid collider");
}

#[test]
fn a_package_holds_a_shape_and_maybe_a_body() {
    let shape = Shape::Box(1);
    let body = "ship";
    let owned = ColliderPackage::with_body(&shape, &body);
    assert_eq!(owned.rigid_body, Some(&"ship"));
    assert_eq!(owned.collider.kind(), ColliderKind::Box);
    let free: ColliderPackage<'_, (i32, i32, i32), (i32, i32), u8, &str> = ColliderPackage::in_world(&shape);
    assert!(free.rigid_body.is_none());
}
