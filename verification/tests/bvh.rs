use tethys::bvh::check_tree;
use tethys::bvh::make_tree;
use tethys::report::CollisionReport;
use tethys::tree::BinaryTree;
use tethys::tree::BinaryTreeNodeHandle;

#[derive(Clone, Debug, PartialEq)]
struct Bx {
    corner: [f64; 3],
    dims: [f64; 3],
}

fn unit(x: f64, y: f64, z: f64) -> Bx {
    Bx { corner: [x, y, z], dims: [1., 1., 1.] }
}

fn volume(b: &Bx) -> f64 {
    b.dims[0] * b.dims[1] * b.dims[2]
}

fn superbox(boxes: &Vec<Bx>) -> (Bx, bool) {
    assert!(!boxes.is_empty());
    let mut lo = boxes[0].corner;
    let mut hi = [0.; 3];
    for a in 0..3 {
        hi[a] = boxes[0].corner[a] + boxes[0].dims[a];
    }
    let mut filled = 0.;
    for b in boxes {
        filled += volume(b);
        for a in 0..3 {
            lo[a] = lo[a].min(b.corner[a]);
            hi[a] = hi[a].max(b.corner[a] + b.dims[a]);
        }
    }
    let all = Bx { corner: lo, dims: [hi[0] - lo[0], hi[1] - lo[1], hi[2] - lo[2]] };
    let full = (volume(&all) - filled).abs() < 1e-5;
    (all, full)
}

fn subdivide(boxes: Vec<Bx>) -> (Vec<Bx>, Vec<Bx>) {
    assert!(boxes.len() >= 2);
    if boxes.len() == 2 {
        return (vec![boxes[0].clone()], vec![boxes[1].clone()]);
    }
    let n = boxes.len() as f64;
    let mut mean = [0.; 3];
    let mut mean2 = [0.; 3];
    for b in &boxes {
        for a in 0..3 {
            let c = b.corner[a] + b.dims[a] / 2.;
            mean[a] += c / n;
            mean2[a] += c * c / n;
        }
    }
    let spread = [mean2[0] - mean[0] * mean[0], mean2[1] - mean[1] * mean[1], mean2[2] - mean[2] * mean[2]];
    let axis = if spread[0] > spread[1] && spread[0] > spread[2] {
        0
    } else if spread[1] > spread[0] && spread[1] > spread[2] {
        1
    } else {
        2
    };
    let mut left = Vec::new();
    let mut right = Vec::new();
    for b in boxes {
        if b.corner[axis] + b.dims[axis] / 2. > mean[axis] {
            left.push(b);
        } else {
            right.push(b);
        }
    }
    (left, right)
}

fn point_in(b: &Bx, p: [f64; 3]) -> CollisionReport<[f64; 3]> {
    let inside = (0..3).all(|a| b.corner[a] < p[a] && p[a] < b.corner[a] + b.dims[a]);
    if inside {
        CollisionReport::new([0., 0., 0.], b.corner)
    } else {
        CollisionReport::none()
    }
}

fn shape(node: BinaryTreeNodeHandle<'_, Bx>) -> String {
    let here = format!("{}..{}", node.item().corner[0], node.item().corner[0] + node.item().dims[0]);
    match (node.left(), node.right()) {
        (None, None) => here,
        (l, r) => format!(
            "({} < {} > {})",
            l.map(shape).unwrap_or(String::from("-")),
            here,
            r.map(shape).unwrap_or(String::from("-"))
        ),
    }
}

#[test]
fn boxes_that_tile_a_row_make_a_single_node() {
    for m in 1..6 {
        let boxes: Vec<Bx> = (0..m).map(|i| unit(i as f64, 0., 0.)).collect();
        let tree: BinaryTree<Bx> = make_tree(boxes, superbox, subdivide);
        assert_eq!(tree.len(), 1);
        let root = tree.root();
        assert_eq!(*root.item(), Bx { corner: [0., 0., 0.], dims: [m as f64, 1., 1.] });
        assert!(root.left().is_none() && root.right().is_none());
        let report = check_tree(&tree, |b: &Bx| point_in(b, [m as f64 - 0.5, 0.5, 0.5]));
        assert_eq!(report.len(), 1);
        assert_eq!(report.positions, vec![[0., 0., 0.]]);
        let miss = check_tree(&tree, |b: &Bx| point_in(b, [m as f64 + 0.5, 0.5, 0.5]));
        assert!(!miss.collision());
    }
}

#[test]
fn boxes_with_gaps_are_split_until_each_node_is_full() {
    let boxes = vec![unit(0., 0., 0.), unit(1., 0., 0.), unit(4., 0., 0.), unit(7., 0., 0.)];
    let tree = make_tree(boxes, superbox, subdivide);
    // centres 0.5 1.5 4.5 7.5, mean 3.5: the boxes beyond the mean go left;
    // the two of them are then split one and one, in their order
    assert_eq!(shape(tree.root()), "((4..5 < 4..8 > 7..8) < 0..8 > 0..2)");
    assert_eq!(tree.len(), 5);
}

#[test]
fn two_boxes_split_one_and_one() {
    let tree = make_tree(vec![unit(0., 0., 0.), unit(0., 5., 0.)], superbox, subdivide);
    assert_eq!(tree.len(), 3);
    let root = tree.root();
    assert_eq!(*root.item(), Bx { corner: [0., 0., 0.], dims: [1., 6., 1.] });
    assert_eq!(*root.left().unwrap().item(), unit(0., 0., 0.));
    assert_eq!(*root.right().unwrap().item(), unit(0., 5., 0.));
}

#[test]
fn query_descends_only_where_it_hits() {
    let boxes = vec![unit(0., 0., 0.), unit(1., 0., 0.), unit(4., 0., 0.), unit(7., 0., 0.)];
    let tree = make_tree(boxes, superbox, subdivide);
    let visited = std::cell::RefCell::new(Vec::new());
    let report = check_tree(&tree, |b: &Bx| {
        visited.borrow_mut().push(b.corner[0]);
        point_in(b, [4.5, 0.5, 0.5])
    });
    // root, then its right child (missed), then its left child, then below
    // it the right child first; only the leaf that is hit is reported
    assert_eq!(*visited.borrow(), vec![0., 0., 4., 7., 4.]);
    assert_eq!(report.positions, vec![[4., 0., 0.]]);
    assert_eq!(report.len(), 1);
}

#[test]
fn point_in_one_of_two_leaves_gives_one_contact() {
    let tree = make_tree(vec![unit(0., 0., 0.), unit(2., 0., 0.)], superbox, subdivide);
    assert_eq!(tree.len(), 3);
    let report = check_tree(&tree, |b: &Bx| point_in(b, [0.5, 0.5, 0.5]));
    assert_eq!(report.len(), 1);
    assert_eq!(report.positions, vec![[0., 0., 0.]]);
    let other = check_tree(&tree, |b: &Bx| point_in(b, [2.5, 0.5, 0.5]));
    assert_eq!(other.positions, vec![[2., 0., 0.]]);
    let between = check_tree(&tree, |b: &Bx| point_in(b, [1.5, 0.5, 0.5]));
    assert!(!between.collision());
}

#[test]
fn query_that_misses_the_root_reports_nothing() {
    let tree = make_tree(vec![unit(0., 0., 0.), unit(3., 0., 0.)], superbox, subdivide);
    let calls = std::cell::Cell::new(0);
    let report = check_tree(&tree, |b: &Bx| {
        calls.set(calls.get() + 1);
        point_in(b, [9., 9., 9.])
    });
    assert!(!report.collision());
    assert_eq!(calls.get(), 1);
}

#[test]
fn query_reports_every_leaf_that_is_hit() {
    // intervals on a line, as a tree built by hand
    let mut tree = BinaryTree::new((0, 10));
    let root = tree.root_mut();
    root.insert_left(&mut tree, (0, 6));
    root.insert_right(&mut tree, (4, 10));
    let left = root.left(&tree).unwrap();
    left.insert_left(&mut tree, (0, 3));
    left.insert_right(&mut tree, (3, 6));
    let at = 5;
    let report = check_tree(&tree, |r: &(i32, i32)| {
        if r.0 <= at && at < r.1 {
            CollisionReport::with_occupant(r.0, r.1, r.0 as isize)
        } else {
            CollisionReport::none()
        }
    });
    // the leaves that hold 5, the right one first
    assert_eq!(report.depths, vec![4, 3]);
    assert_eq!(report.positions, vec![10, 6]);
    assert_eq!(report.index, vec![4, 3]);
}

#[test]
fn two_boxes_are_divided_without_asking() {
    let (l, r) = tethys::bvh::subdivide(vec![7, 8], |_: &i32| panic!("the test is not needed"));
    assert_eq!((l, r), (vec![7], vec![8]));
}

#[test]
fn more_boxes_are_divided_by_the_test_in_their_order() {
    let (l, r) = tethys::bvh::subdivide(vec![5, 1, 4, 2, 3], |x: &i32| *x > 2);
    assert_eq!((l, r), (vec![5, 4, 3], vec![1, 2]));
    let (l, r) = tethys::bvh::subdivide(vec![1, 1, 1], |x: &i32| *x > 2);
    assert_eq!((l, r), (vec![], vec![1, 1, 1]));
}
