use tethys::grid::GridCollider;
use tethys::walk::VoxelLine;

fn line(start: (i32, i32, i32), end: (i32, i32, i32)) -> VoxelLine {
    VoxelLine { start, end }
}

fn grid_with(x: u32, y: u32, z: u32, cells: &[((i32, i32, i32), isize)]) -> GridCollider {
    let mut g = GridCollider::with_capacity(x, y, z);
    for (c, id) in cells {
        *g.get_entry_mut(c.0, c.1, c.2).unwrap() = *id;
    }
    g
}

#[test]
fn segment_through_one_occupied_cell_reports_it() {
    let g = grid_with(8, 1, 1, &[((5, 0, 0), 3)]);
    assert_eq!(g.check_line(&line((0, 0, 0), (7, 0, 0))), Some(((5, 0, 0), 3)));
    assert_eq!(g.check_line(&line((7, 0, 0), (0, 0, 0))), Some(((5, 0, 0), 3)));
}

#[test]
fn segment_reports_the_first_of_two_occupied_cells() {
    let g = grid_with(8, 1, 1, &[((2, 0, 0), 1), ((5, 0, 0), 2)]);
    assert_eq!(g.check_line(&line((0, 0, 0), (7, 0, 0))), Some(((2, 0, 0), 1)));
    assert_eq!(g.check_line(&line((7, 0, 0), (0, 0, 0))), Some(((5, 0, 0), 2)));
}

#[test]
fn segment_missing_all_occupied_cells_reports_none() {
    let g = grid_with(4, 4, 1, &[((0, 3, 0), 1)]);
    assert_eq!(g.check_line(&line((0, 0, 0), (3, 0, 0))), None);
}

#[test]
fn segment_that_stays_in_its_cell_tests_no_other_cell() {
    let g = grid_with(3, 3, 3, &[((1, 1, 1), 7)]);
    assert_eq!(g.check_line(&line((0, 0, 0), (0, 0, 0))), None);
    assert_eq!(g.check_line(&line((1, 1, 1), (1, 1, 1))), Some(((1, 1, 1), 7)));
}

#[test]
fn segment_reports_nothing_beyond_its_end_cell() {
    let g = grid_with(8, 1, 1, &[((5, 0, 0), 3)]);
    assert_eq!(g.check_line(&line((0, 0, 0), (3, 0, 0))), None);
    assert_eq!(g.check_line(&line((0, 0, 0), (4, 0, 0))), None);
    assert_eq!(g.check_line(&line((0, 0, 0), (5, 0, 0))), Some(((5, 0, 0), 3)));
    assert_eq!(g.check_line(&line((7, 0, 0), (6, 0, 0))), None);
}

#[test]
fn cells_outside_the_grid_are_empty_cells_on_the_way() {
    let g = grid_with(2, 2, 2, &[((0, 0, 0), 3)]);
    assert_eq!(g.check_line(&line((-3, 0, 0), (1, 0, 0))), Some(((0, 0, 0), 3)));
    assert_eq!(g.check_line(&line((-3, 0, 0), (-1, 0, 0))), None);
    assert_eq!(g.check_line(&line((1, 0, 0), (5, 0, 0))), None);
    assert_eq!(g.check_line(&line((i32::MAX, 0, 0), (i32::MAX - 2, 0, 0))), None);
}

#[test]
fn start_cell_is_tested_first() {
    let g = grid_with(2, 2, 2, &[((1, 1, 1), 8), ((0, 0, 0), 9)]);
    assert_eq!(g.check_line(&line((1, 1, 1), (0, 0, 0))), Some(((1, 1, 1), 8)));
    assert_eq!(g.check_line(&line((0, 0, 0), (1, 1, 1))), Some(((0, 0, 0), 9)));
}

#[test]
fn diagonal_walk_steps_all_axes() {
    let g = grid_with(4, 4, 4, &[((3, 3, 3), 6)]);
    assert_eq!(g.check_line(&line((0, 0, 0), (3, 3, 3))), Some(((3, 3, 3), 6)));
    for k in 0..4 {
        let h = grid_with(4, 4, 4, &[((k, k, k), 5)]);
        assert_eq!(h.check_line(&line((3, 3, 3), (0, 0, 0))), Some(((k, k, k), 5)));
        assert_eq!(h.check_line(&line((0, 0, 0), (3, 3, 3))), Some(((k, k, k), 5)));
    }
    let off = grid_with(4, 4, 4, &[((1, 0, 0), 5), ((1, 1, 0), 5), ((2, 2, 3), 5)]);
    assert_eq!(off.check_line(&line((0, 0, 0), (3, 3, 3))), None);
}

#[test]
fn shallow_walk_visits_the_cell_nearest_to_each_step() {
    // from (0, 0) to (4, 2): after k of 4 steps the second coordinate is
    // k / 2 rounded, a half upward: 0 1 1 2 2
    let path = [(0, 0), (1, 1), (2, 1), (3, 2), (4, 2)];
    for (n, cell) in path.iter().enumerate() {
        let g = grid_with(6, 4, 1, &[((cell.0, cell.1, 0), n as isize)]);
        assert_eq!(g.check_line(&line((0, 0, 0), (4, 2, 0))), Some(((cell.0, cell.1, 0), n as isize)));
    }
    for cell in [(1, 0), (2, 0), (2, 2), (3, 1), (4, 1), (5, 2)] {
        let g = grid_with(6, 4, 1, &[((cell.0, cell.1, 0), 1)]);
        assert_eq!(g.check_line(&line((0, 0, 0), (4, 2, 0))), None);
    }
}

#[test]
fn falling_coordinates_round_toward_the_end() {
    // from (0, 2) to (4, 0): the second coordinate falls by k / 2 rounded,
    // a half counted as a whole: 2 1 1 0 0
    let path = [(0, 2), (1, 1), (2, 1), (3, 0), (4, 0)];
    for (n, cell) in path.iter().enumerate() {
        let g = grid_with(6, 4, 1, &[((cell.0, cell.1, 0), n as isize)]);
        assert_eq!(g.check_line(&line((0, 2, 0), (4, 0, 0))), Some(((cell.0, cell.1, 0), n as isize)));
    }
}

#[test]
fn second_and_third_axis_can_drive() {
    // from (0, 0, 0) to (1, 2, 0): the first coordinate is k / 2 rounded
    for (n, cell) in [(0, 0, 0), (1, 1, 0), (1, 2, 0)].iter().enumerate() {
        let g = grid_with(3, 6, 3, &[(*cell, n as isize)]);
        assert_eq!(g.check_line(&line((0, 0, 0), (1, 2, 0))), Some((*cell, n as isize)));
    }
    // from (0, 0, 1) to (2, 2, 5): the first two coordinates are k / 2 rounded
    for (n, cell) in [(0, 0, 1), (1, 1, 2), (1, 1, 3), (2, 2, 4), (2, 2, 5)].iter().enumerate() {
        let h = grid_with(3, 3, 6, &[(*cell, n as isize)]);
        assert_eq!(h.check_line(&line((0, 0, 1), (2, 2, 5))), Some((*cell, n as isize)));
    }
    let h = grid_with(3, 3, 6, &[((1, 1, 4), 2), ((0, 0, 2), 2)]);
    assert_eq!(h.check_line(&line((0, 0, 1), (2, 2, 5))), None);
}

#[test]
fn axis_aligned_walk_keeps_to_its_line() {
    let g = grid_with(3, 6, 3, &[((1, 4, 1), 2)]);
    assert_eq!(g.check_line(&line((1, 0, 1), (1, 5, 1))), Some(((1, 4, 1), 2)));
    assert_eq!(g.check_line(&line((1, 5, 1), (1, 0, 1))), Some(((1, 4, 1), 2)));
    assert_eq!(g.check_line(&line((0, 0, 1), (0, 5, 1))), None);
    assert_eq!(g.check_line(&line((1, 0, 0), (1, 5, 0))), None);
}

#[test]
fn walk_in_a_shifted_grid_uses_world_cells() {
    let mut g = GridCollider::new();
    assert!(g.insert(&vec![(-3, -2, -1)], 9));
    assert!(g.insert(&vec![(2, -2, -1)], 4));
    assert_eq!(g.check_line(&line((2, -2, -1), (-3, -2, -1))), Some(((2, -2, -1), 4)));
    *g.get_entry_mut(2, -2, -1).unwrap() = -1;
    assert_eq!(g.check_line(&line((2, -2, -1), (-3, -2, -1))), Some(((-3, -2, -1), 9)));
    assert_eq!(g.check_line(&line((2, -2, -1), (-2, -2, -1))), None);
}

#[test]
fn empty_grid_reports_none() {
    let g = GridCollider::new();
    assert_eq!(g.check_line(&line((0, 0, 0), (1, 0, 0))), None);
    let h = GridCollider::with_capacity(4, 4, 4);
    assert_eq!(h.check_line(&line((0, 0, 0), (3, 3, 3))), None);
    assert_eq!(h.check_line(&line((0, 0, 0), (0, 0, 0))), None);
}
