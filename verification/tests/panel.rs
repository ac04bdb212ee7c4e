use tethys::grid::GridCollider;
use tethys::grid::EMPTY;
use tethys::panel::add_panel_to_grid;
use tethys::panel::get_triangle_intersections;
use tethys::panel::is_new_panel_allowed;
use tethys::panel::PanelLayout;
use tethys::part::Part;
use tethys::part::PartLayout;
use tethys::part_grid::add_part_to_grid;
use tethys::part_grid::is_new_part_allowed;

#[test]
fn small_slanted_triangle_cuts_its_cell() {
    let g = GridCollider::with_capacity(1, 1, 1);
    let cells = get_triangle_intersections(&g, [(0, 0, 0), (1, 0, 1), (0, 1, 1)]);
    assert_eq!(cells, vec![(0, 0, 0)]);
}

#[test]
fn triangle_in_a_lattice_plane_cuts_nothing() {
    let g = GridCollider::with_capacity(4, 4, 4);
    assert!(get_triangle_intersections(&g, [(0, 0, 0), (2, 0, 0), (0, 2, 0)]).is_empty());
    assert!(get_triangle_intersections(&g, [(0, 1, 0), (4, 1, 0), (0, 1, 4)]).is_empty());
}

#[test]
fn triangle_in_a_diagonal_plane_cuts_the_cells_on_the_diagonal() {
    let g = GridCollider::with_capacity(2, 2, 2);
    // the plane is z = y; the triangle covers x + y <= 2
    let cells = get_triangle_intersections(&g, [(0, 0, 0), (2, 0, 0), (0, 2, 2)]);
    assert_eq!(cells, vec![(0, 0, 0), (0, 1, 1), (1, 0, 0), (1, 1, 1)]);
}

#[test]
fn the_order_of_the_corners_does_not_matter() {
    let g = GridCollider::with_capacity(2, 2, 2);
    let a = get_triangle_intersections(&g, [(0, 0, 0), (2, 0, 0), (0, 2, 2)]);
    assert_eq!(get_triangle_intersections(&g, [(2, 0, 0), (0, 0, 0), (0, 2, 2)]), a);
    assert_eq!(get_triangle_intersections(&g, [(0, 2, 2), (2, 0, 0), (0, 0, 0)]), a);
}

#[test]
fn triangle_away_from_the_grid_lists_nothing() {
    let none = GridCollider::new();
    assert!(get_triangle_intersections(&none, [(0, 0, 0), (1, 0, 1), (0, 1, 1)]).is_empty());
    let g = GridCollider::with_capacity(1, 1, 1);
    assert!(get_triangle_intersections(&g, [(1, 0, 0), (2, 0, 1), (1, 1, 1)]).is_empty());
    assert!(get_triangle_intersections(&g, [(-1, 0, 0), (0, 0, 1), (-1, 1, 1)]).is_empty());
    // the box around the triangle reaches into the grid: the cells
    // outside the grid are listed too
    let cells = get_triangle_intersections(&g, [(0, 0, 0), (4, 0, 4), (0, 1, 4)]);
    assert!(cells.contains(&(0, 0, 0)));
    assert!(cells.contains(&(3, 0, 3)));
}

#[test]
fn far_corners_are_within_reach_of_the_arithmetic() {
    let m = i32::MAX;
    let mut g = GridCollider::new();
    g.reshape(1, 1, 1, 1 - m, 1 - m, 1 - m);
    assert_eq!(g.cell_at(0), (m - 1, m - 1, m - 1));
    let cells = get_triangle_intersections(&g, [(m - 1, m - 1, m - 1), (m, m - 1, m), (m - 1, m, m)]);
    assert_eq!(cells, vec![(m - 1, m - 1, m - 1)]);
}

#[test]
fn panel_is_written_into_the_cells_it_cuts() {
    let mut g = GridCollider::with_capacity(2, 2, 2);
    let panel = PanelLayout { vertices: [(0, 0, 0), (2, 0, 0), (0, 2, 2)] };
    assert!(is_new_panel_allowed(&g, panel.vertices));
    assert!(add_panel_to_grid(&mut g, panel, 1000));
    assert_eq!(g.get_entry(0, 0, 0), 1000);
    assert_eq!(g.get_entry(0, 1, 1), 1000);
    assert_eq!(g.get_entry(1, 0, 0), 1000);
    assert_eq!(g.get_entry(1, 1, 1), 1000);
    assert_eq!(g.get_entry(0, 1, 0), EMPTY);
    assert_eq!(g.get_entry(1, 0, 1), EMPTY);
    assert!(!is_new_panel_allowed(&g, panel.vertices));
    assert!(!is_new_panel_allowed(&g, [(1, 1, 1), (2, 1, 2), (1, 2, 2)]));
    assert!(is_new_panel_allowed(&g, [(0, 1, 0), (1, 1, 1), (0, 2, 1)]));
}

#[test]
fn part_is_allowed_where_all_its_cells_are_empty() {
    let mut g = GridCollider::new();
    let at = |x, y, z| PartLayout { x, y, z, orientation: 0 };
    assert!(is_new_part_allowed(&g, Part::Tank { length: 3 }, at(0, 0, 0)));
    assert!(add_part_to_grid(&mut g, &Part::Tank { length: 3 }, at(0, 0, 0), 0));
    assert!(!is_new_part_allowed(&g, Part::Tank { length: 3 }, at(0, 0, 0)));
    assert!(!is_new_part_allowed(&g, Part::FuelCell, at(0, 0, 1)));
    assert!(!is_new_part_allowed(&g, Part::Tank { length: 3 }, at(0, 0, 2)));
    assert!(is_new_part_allowed(&g, Part::Tank { length: 3 }, at(0, 0, 3)));
    assert!(is_new_part_allowed(&g, Part::FuelCell, at(1, 0, 0)));
    assert!(is_new_part_allowed(&g, Part::Scaffold { length: 0, width: 1, height: 1 }, at(0, 0, 0)));
}
