use tethys::report::CollisionReport;

type Report = CollisionReport<(i32, i32, i32)>;

#[test]
fn none_reports_no_collision() {
    let r = Report::none();
    assert!(!r.collision());
    assert_eq!(r.len(), 0);
    assert!(r.depths.is_empty() && r.positions.is_empty() && r.index.is_empty());
}

#[test]
fn new_reports_one_contact() {
    let r = Report::new((0, 0, -1), (4, 5, 6));
    assert!(r.collision());
    assert_eq!(r.len(), 1);
    assert_eq!(r.depths, vec![(0, 0, -1)]);
    assert_eq!(r.positions, vec![(4, 5, 6)]);
    assert!(r.index.is_empty());
}

#[test]
fn with_occupant_names_who_was_hit() {
    let r = Report::with_occupant((0, 0, 0), (1, 1, 1), 12);
    assert_eq!(r.len(), 1);
    assert_eq!(r.index, vec![12]);
}

#[test]
fn add_assign_joins_in_order() {
    let mut r = Report::new((1, 0, 0), (1, 1, 1));
    r.add_assign(Report::with_occupant((2, 0, 0), (2, 2, 2), 7));
    r.add_assign(Report::none());
    r.add_assign(Report::new((3, 0, 0), (3, 3, 3)));
    assert_eq!(r.len(), 3);
    assert_eq!(r.depths, vec![(1, 0, 0), (2, 0, 0), (3, 0, 0)]);
    assert_eq!(r.positions, vec![(1, 1, 1), (2, 2, 2), (3, 3, 3)]);
    assert_eq!(r.index, vec![7]);
    let mut empty = Report::none();
    empty.add_assign(Report::none());
    assert!(!empty.collision());
}

#[test]
fn transformed_maps_depths_and_positions_and_keeps_occupants() {
    let mut r = Report::with_occupant((1, 0, 0), (1, 1, 1), 7);
    r.add_assign(Report::new((0, 2, 0), (2, 2, 2)));
    let t = r.transformed(|d| (-d.0, -d.1, -d.2), |p| (p.0 + 10, p.1, p.2));
    assert_eq!(t.depths, vec![(-1, 0, 0), (0, -2, 0)]);
    assert_eq!(t.positions, vec![(11, 1, 1), (12, 2, 2)]);
    assert_eq!(t.index, vec![7]);
    assert_eq!(r.index, vec![7]);
}
