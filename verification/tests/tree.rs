use tethys::tree::BinaryTree;
use tethys::util::unreacho;
use tethys::util::unreachr;

#[test]
fn new_tree_has_a_lone_root() {
    let t = BinaryTree::new(5);
    assert_eq!(t.len(), 1);
    let root = t.root();
    assert_eq!(*root.item(), 5);
    assert!(root.parent().is_none());
    assert!(root.left().is_none());
    assert!(root.right().is_none());
}

#[test]
fn inserted_children_hang_below_the_node() {
    let mut t = BinaryTree::new("root");
    let root = t.root_mut();
    root.insert_left(&mut t, "left");
    root.insert_right(&mut t, "right");
    let left = unreacho(root.left(&t));
    left.insert_right(&mut t, "left-right");
    assert_eq!(t.len(), 4);
    let r = t.root();
    assert_eq!(*unreacho(r.left()).item(), "left");
    assert_eq!(*unreacho(r.right()).item(), "right");
    assert_eq!(*unreacho(unreacho(r.left()).right()).item(), "left-right");
    assert!(unreacho(r.left()).left().is_none());
    assert_eq!(*unreacho(unreacho(r.left()).parent()).item(), "root");
    assert_eq!(*unreacho(unreacho(unreacho(r.left()).right()).parent()).item(), "left");
    assert_eq!(unreacho(left.parent(&t)).index(), 0);
    assert!(root.parent(&t).is_none());
}

#[test]
fn insert_replaces_the_child_and_all_below_it() {
    let mut t = BinaryTree::new(0);
    let root = t.root_mut();
    root.insert_left(&mut t, 1);
    root.insert_right(&mut t, 2);
    let left = unreacho(root.left(&t));
    left.insert_left(&mut t, 3);
    left.insert_right(&mut t, 4);
    let right = unreacho(root.right(&t));
    right.insert_left(&mut t, 5);
    assert_eq!(t.len(), 6);
    root.insert_left(&mut t, 10);
    assert_eq!(t.len(), 4);
    let r = t.root();
    assert_eq!(*unreacho(r.left()).item(), 10);
    assert!(unreacho(r.left()).left().is_none());
    assert!(unreacho(r.left()).right().is_none());
    assert_eq!(*unreacho(r.right()).item(), 2);
    assert_eq!(*unreacho(unreacho(r.right()).left()).item(), 5);
    assert_eq!(*unreacho(unreacho(unreacho(r.right()).left()).parent()).item(), 2);
    assert_eq!(*unreacho(unreacho(r.left()).parent()).item(), 0);
}

#[test]
fn delete_moves_the_other_nodes_up() {
    let mut t = BinaryTree::new('a');
    let root = t.root_mut();
    root.insert_left(&mut t, 'b');
    root.insert_right(&mut t, 'c');
    let b = unreacho(root.left(&t));
    b.insert_left(&mut t, 'd');
    let c = unreacho(root.right(&t));
    c.insert_left(&mut t, 'e');
    c.insert_right(&mut t, 'f');
    let d = unreacho(b.left(&t));
    d.insert_right(&mut t, 'g');
    // arena: a b c d e f g; deleting b takes d and g with it
    unreacho(root.left(&t)).delete(&mut t);
    assert_eq!(t.len(), 4);
    let r = t.root();
    assert!(r.left().is_none());
    let c = unreacho(r.right());
    assert_eq!(*c.item(), 'c');
    assert_eq!(c.index(), 1);
    assert_eq!(*unreacho(c.left()).item(), 'e');
    assert_eq!(unreacho(c.left()).index(), 2);
    assert_eq!(*unreacho(c.right()).item(), 'f');
    assert_eq!(unreacho(c.right()).index(), 3);
    assert_eq!(unreacho(unreacho(c.right()).parent()).index(), 1);
}

#[test]
fn delete_of_a_leaf_removes_one_node() {
    let mut t = BinaryTree::new(0);
    let root = t.root_mut();
    root.insert_left(&mut t, 1);
    root.insert_right(&mut t, 2);
    unreacho(root.right(&t)).delete(&mut t);
    assert_eq!(t.len(), 2);
    assert!(t.root().right().is_none());
    assert_eq!(*unreacho(t.root().left()).item(), 1);
}

#[test]
fn unwrapping_what_is_there() {
    assert_eq!(unreacho(Some(3)), 3);
    let r: Result<i32, ()> = Ok(4);
    assert_eq!(unreachr(r), 4);
}
