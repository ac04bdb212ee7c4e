use tethys::box_frame::get_lines;
use tethys::box_frame::get_points;
use tethys::box_frame::Axis;
use tethys::box_frame::BoxCorner;
use tethys::box_line::Corner;
use tethys::box_line::Crossings;

#[test]
fn a_box_has_eight_corners() {
    let points = get_points();
    assert_eq!(points.len(), 8);
    assert_eq!(points[0], BoxCorner { x: false, y: false, z: false });
    assert_eq!(points[1], BoxCorner { x: true, y: false, z: false });
    assert_eq!(points[2], BoxCorner { x: false, y: true, z: false });
    assert_eq!(points[3], BoxCorner { x: false, y: false, z: true });
    assert_eq!(points[7], BoxCorner { x: true, y: true, z: true });
    for (i, a) in points.iter().enumerate() {
        for b in &points[i + 1..] {
            assert_ne!(a, b);
        }
    }
}

#[test]
fn a_box_has_twelve_edges() {
    let lines = get_lines();
    assert_eq!(lines.len(), 12);
    assert_eq!((lines[0].from, lines[0].axis), (BoxCorner { x: false, y: false, z: false }, Axis::X));
    assert_eq!((lines[1].from, lines[1].axis), (BoxCorner { x: false, y: false, z: false }, Axis::Y));
    assert_eq!((lines[2].from, lines[2].axis), (BoxCorner { x: false, y: false, z: false }, Axis::Z));
    for (i, a) in lines.iter().enumerate() {
        let low = match a.axis {
            Axis::X => !a.from.x,
            Axis::Y => !a.from.y,
            Axis::Z => !a.from.z,
        };
        assert!(low);
        for b in &lines[i + 1..] {
            assert_ne!(a, b);
        }
    }
    for axis in [Axis::X, Axis::Y, Axis::Z] {
        assert_eq!(lines.iter().filter(|e| e.axis == axis).count(), 4);
    }
}

fn crossing(left: bool, right: bool, bottom: bool, top: bool) -> Crossings {
    Crossings { left, right, bottom, top, falling: false, upper: false, leaning: false, far: false }
}

#[test]
fn a_line_through_fewer_than_two_sides_cuts_no_corner() {
    assert!(crossing(false, false, false, false).misses());
    assert_eq!(crossing(false, false, false, false).near_corner(), None);
    for one in [crossing(true, false, false, false), crossing(false, true, false, false), crossing(false, false, true, false), crossing(false, false, false, true)] {
        assert!(!one.misses());
        assert_eq!(one.near_corner(), None);
    }
}

#[test]
fn a_line_through_two_neighbouring_sides_cuts_their_corner() {
    assert_eq!(crossing(true, false, true, false).near_corner(), Some(Corner::LowLow));
    assert_eq!(crossing(true, false, false, true).near_corner(), Some(Corner::LowHigh));
    assert_eq!(crossing(false, true, true, false).near_corner(), Some(Corner::HighLow));
    assert_eq!(crossing(false, true, false, true).near_corner(), Some(Corner::HighHigh));
}

#[test]
fn a_line_through_two_opposite_sides_cuts_the_smaller_part() {
    let through = |falling, upper| Crossings {
        left: true,
        right: true,
        bottom: false,
        top: false,
        falling,
        upper,
        leaning: true,
        far: true,
    };
    assert_eq!(through(true, true).near_corner(), Some(Corner::HighHigh));
    assert_eq!(through(true, false).near_corner(), Some(Corner::LowLow));
    assert_eq!(through(false, true).near_corner(), Some(Corner::HighLow));
    assert_eq!(through(false, false).near_corner(), Some(Corner::LowHigh));
    let across = |leaning, far| Crossings {
        left: false,
        right: false,
        bottom: true,
        top: true,
        falling: true,
        upper: true,
        leaning,
        far,
    };
    assert_eq!(across(true, true).near_corner(), Some(Corner::HighHigh));
    assert_eq!(across(true, false).near_corner(), Some(Corner::LowLow));
    assert_eq!(across(false, true).near_corner(), Some(Corner::HighLow));
    assert_eq!(across(false, false).near_corner(), Some(Corner::LowHigh));
}

#[test]
fn left_and_right_decide_before_the_other_pairs() {
    let all = Crossings {
        left: true,
        right: true,
        bottom: true,
        top: true,
        falling: false,
        upper: false,
        leaning: true,
        far: true,
    };
    assert_eq!(all.near_corner(), Some(Corner::LowHigh));
}
