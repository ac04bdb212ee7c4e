use tethys::grid::GridCollider;
use tethys::grid::EMPTY;

fn write(g: &mut GridCollider, x: i32, y: i32, z: i32, id: isize) {
    *g.get_entry_mut(x, y, z).unwrap() = id;
}

#[test]
fn new_grid_is_empty() {
    let g = GridCollider::new();
    assert_eq!((g.x(), g.y(), g.z()), (0, 0, 0));
    assert_eq!((g.cx(), g.cy(), g.cz()), (0, 0, 0));
    assert_eq!(g.get_entry(0, 0, 0), EMPTY);
    assert_eq!(g.check_point(0, 0, 0), None);
    assert!(g.indexed_iter().next().is_none());
}

#[test]
fn with_capacity_gives_empty_cells() {
    let g = GridCollider::with_capacity(2, 3, 4);
    assert_eq!((g.x(), g.y(), g.z()), (2, 3, 4));
    for x in -1..3 {
        for y in -1..4 {
            for z in -1..5 {
                assert_eq!(g.get_entry(x, y, z), EMPTY);
            }
        }
    }
}

#[test]
fn written_cell_is_found_again() {
    let mut g = GridCollider::with_capacity(2, 3, 4);
    write(&mut g, 1, 2, 3, 7);
    assert_eq!(g.get_entry(1, 2, 3), 7);
    assert_eq!(g.check_point(1, 2, 3), Some(7));
    assert_eq!(g.get_entry(0, 2, 3), EMPTY);
    assert_eq!(g.get_entry(1, 1, 3), EMPTY);
    assert_eq!(g.get_entry(1, 2, 2), EMPTY);
    assert_eq!(g.check_point(0, 2, 3), None);
}

#[test]
fn reads_outside_the_bounds_are_empty() {
    let mut g = GridCollider::with_capacity(2, 3, 4);
    write(&mut g, 1, 2, 3, 7);
    assert_eq!(g.get_entry(2, 2, 3), EMPTY);
    assert_eq!(g.get_entry(1, 3, 3), EMPTY);
    assert_eq!(g.get_entry(1, 2, 4), EMPTY);
    assert_eq!(g.get_entry(-1, 0, 0), EMPTY);
    assert_eq!(g.get_entry(i32::MAX, i32::MAX, i32::MAX), EMPTY);
    assert_eq!(g.get_entry(i32::MIN, i32::MIN, i32::MIN), EMPTY);
    assert!(g.get_entry_mut(2, 0, 0).is_none());
    assert!(g.get_entry_mut(0, -1, 0).is_none());
}

#[test]
fn second_axis_is_bounded_by_its_own_extent() {
    // The extents differ along the second and third axis: a cell beyond the
    // second extent is outside even where it is within the third.
    let mut g = GridCollider::with_capacity(1, 2, 5);
    write(&mut g, 0, 1, 4, 3);
    assert_eq!(g.get_entry(0, 1, 4), 3);
    assert_eq!(g.get_entry(0, 2, 0), EMPTY);
    assert_eq!(g.get_entry(0, 4, 0), EMPTY);
}

#[test]
fn reshape_keeps_occupants_at_their_world_cells() {
    let mut g = GridCollider::with_capacity(2, 2, 2);
    write(&mut g, 0, 0, 0, 1);
    write(&mut g, 1, 0, 1, 2);
    write(&mut g, 1, 1, 1, 3);
    g.reshape(5, 4, 6, 2, 1, 3);
    assert_eq!((g.x(), g.y(), g.z()), (5, 4, 6));
    assert_eq!((g.cx(), g.cy(), g.cz()), (2, 1, 3));
    assert_eq!(g.get_entry(0, 0, 0), 1);
    assert_eq!(g.get_entry(1, 0, 1), 2);
    assert_eq!(g.get_entry(1, 1, 1), 3);
    let mut occupied = 0;
    for x in -3..4 {
        for y in -2..4 {
            for z in -4..4 {
                if g.get_entry(x, y, z) != EMPTY {
                    occupied += 1;
                }
            }
        }
    }
    assert_eq!(occupied, 3);
    // the new cells can be written
    write(&mut g, -2, -1, -3, 9);
    assert_eq!(g.get_entry(-2, -1, -3), 9);
    write(&mut g, 2, 2, 2, 8);
    assert_eq!(g.get_entry(2, 2, 2), 8);
}

#[test]
fn reshape_to_smaller_bounds_drops_what_lies_outside() {
    let mut g = GridCollider::with_capacity(3, 1, 1);
    write(&mut g, 0, 0, 0, 4);
    write(&mut g, 2, 0, 0, 5);
    g.reshape(2, 1, 1, 0, 0, 0);
    assert_eq!(g.get_entry(0, 0, 0), 4);
    assert_eq!(g.get_entry(2, 0, 0), EMPTY);
}

#[test]
fn linear_index_runs_first_axis_fastest() {
    let mut g = GridCollider::with_capacity(2, 3, 2);
    g.reshape(2, 3, 2, 1, 1, 0);
    write(&mut g, 0, 1, 1, 42);
    // array cell (1, 2, 1) sits at 1 + 2 * 2 + 1 * 2 * 3 = 11
    let mut it = g.indexed_iter();
    let mut seen = Vec::new();
    while let Some(item) = it.next() {
        seen.push(item);
    }
    assert_eq!(seen.len(), 12);
    assert_eq!(seen[11], ((0, 1, 1), 42));
    assert_eq!(seen[0], ((-1, -1, 0), EMPTY));
    assert_eq!(seen[1], ((0, -1, 0), EMPTY));
    assert_eq!(seen[2], ((-1, 0, 0), EMPTY));
    assert_eq!(seen[6], ((-1, -1, 1), EMPTY));
    assert_eq!(g.cell_at(11), (0, 1, 1));
    assert!(it.next().is_none());
}

#[test]
fn indexed_iter_starts_afresh_each_time() {
    let mut g = GridCollider::with_capacity(2, 1, 1);
    write(&mut g, 1, 0, 0, 6);
    for _ in 0..2 {
        let mut it = g.indexed_iter();
        assert_eq!(it.next(), Some(((0, 0, 0), EMPTY)));
        assert_eq!(it.next(), Some(((1, 0, 0), 6)));
        assert_eq!(it.next(), None);
        assert_eq!(it.next(), None);
    }
}

#[test]
fn one_occupant_at_the_origin() {
    let mut g = GridCollider::with_capacity(1, 1, 1);
    write(&mut g, 0, 0, 0, 5);
    let p: (f64, f64, f64) = (0.5, 0.5, 0.5);
    assert_eq!(g.check_point(p.0 as i32, p.1 as i32, p.2 as i32), Some(5));
    let q: (f64, f64, f64) = (1.5, 0.5, 0.5);
    assert_eq!(g.check_point(q.0 as i32, q.1 as i32, q.2 as i32), None);
}

#[test]
fn insert_grows_to_the_smallest_bounds() {
    let mut g = GridCollider::new();
    assert!(g.insert(&vec![(2, 3, 4)], 1));
    assert_eq!((g.x(), g.y(), g.z()), (3, 4, 5));
    assert_eq!((g.cx(), g.cy(), g.cz()), (0, 0, 0));
    assert_eq!(g.get_entry(2, 3, 4), 1);
    assert!(g.insert(&vec![(-1, 0, 0), (0, -2, 6)], 2));
    assert_eq!((g.x(), g.y(), g.z()), (4, 6, 7));
    assert_eq!((g.cx(), g.cy(), g.cz()), (1, 2, 0));
    assert_eq!(g.get_entry(2, 3, 4), 1);
    assert_eq!(g.get_entry(-1, 0, 0), 2);
    assert_eq!(g.get_entry(0, -2, 6), 2);
    assert_eq!(g.get_entry(0, 0, 0), EMPTY);
}

#[test]
fn insert_inside_the_bounds_leaves_the_shape() {
    let mut g = GridCollider::with_capacity(3, 3, 3);
    assert!(g.insert(&vec![(0, 0, 0), (2, 2, 2)], 4));
    assert_eq!((g.x(), g.y(), g.z()), (3, 3, 3));
    assert_eq!((g.cx(), g.cy(), g.cz()), (0, 0, 0));
    assert_eq!(g.get_entry(0, 0, 0), 4);
    assert_eq!(g.get_entry(2, 2, 2), 4);
    assert_eq!(g.get_entry(1, 1, 1), EMPTY);
}

#[test]
fn insert_overwrites_an_earlier_occupant() {
    let mut g = GridCollider::new();
    assert!(g.insert(&vec![(0, 0, 0), (1, 0, 0)], 1));
    assert!(g.insert(&vec![(1, 0, 0)], 2));
    assert_eq!(g.get_entry(0, 0, 0), 1);
    assert_eq!(g.get_entry(1, 0, 0), 2);
}

#[test]
fn insert_of_nothing_changes_nothing() {
    let mut g = GridCollider::with_capacity(2, 2, 2);
    assert!(g.insert(&Vec::new(), 3));
    assert_eq!((g.x(), g.y(), g.z()), (2, 2, 2));
    assert_eq!(g.get_entry(0, 0, 0), EMPTY);
}

#[test]
fn insert_refuses_bounds_that_cannot_be_held() {
    let mut g = GridCollider::with_capacity(1, 1, 1);
    *g.get_entry_mut(0, 0, 0).unwrap() = 7;
    // two cells a whole coordinate range apart
    assert!(!g.insert(&vec![(i32::MIN, 0, 0), (i32::MAX, 0, 0)], 1));
    assert_eq!((g.x(), g.y(), g.z()), (1, 1, 1));
    assert_eq!(g.get_entry(0, 0, 0), 7);
    // too many cells for the store
    assert!(!g.insert(&vec![(100_000, 100_000, 100_000)], 1));
    assert_eq!((g.x(), g.y(), g.z()), (1, 1, 1));
    assert_eq!(g.get_entry(0, 0, 0), 7);
}
