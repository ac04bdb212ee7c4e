//! The bounding-volume tree: how it is built from a set of boxes and how a
//! query descends it.
//!
//! The geometry itself is supplied by the caller: a function that encloses
//! a set of boxes, one that splits a set in two, and one that tests a box.

use vstd::prelude::*;
use crate::report::CollisionReport;
use crate::report::ReportView;
use crate::report::lemma_concat_laws;
use crate::tree::BinaryTree;
use crate::tree::BinaryTreeNodeHandleMut;

verus! {

/// Whether `g` says what the test `f` reports for each item.
pub open spec fn reports_as<T, V, F: Fn(&T) -> CollisionReport<V>>(
    f: F,
    g: spec_fn(T) -> ReportView<V>,
) -> bool {
    forall|item: T, r: CollisionReport<V>| #[trigger] f.ensures((&item,), r) ==> r@ == g(item)
}

/// What a query reports at and below node `i`: nothing where the test
/// misses the item of the node; what the test reports for the item where
/// the node is a leaf; and otherwise what the query reports below the
/// right child, then below the left child. The items of the inner nodes
/// only decide whether the query descends.
pub open spec fn pruned<T, V>(
    t: &BinaryTree<T>,
    i: int,
    f: spec_fn(T) -> ReportView<V>,
) -> ReportView<V>
    decreases t.size() - i,
{
    if 0 <= i < t.size() {
        let here = f(t.item_of(i));
        if here.collision() {
            let right = match t.right_of(i) {
                Some(c) => if i < c < t.size() {
                    pruned(t, c, f)
                } else {
                    ReportView::empty()
                },
                None => ReportView::empty(),
            };
            let left = match t.left_of(i) {
                Some(c) => if i < c < t.size() {
                    pruned(t, c, f)
                } else {
                    ReportView::empty()
                },
                None => ReportView::empty(),
            };
            if t.left_of(i).is_none() && t.right_of(i).is_none() {
                here
            } else {
                right.concat(left)
            }
        } else {
            ReportView::empty()
        }
    } else {
        ReportView::empty()
    }
}

/// What a query still has to report for the nodes on its stack, the last
/// one first.
pub open spec fn pending<T, V>(
    t: &BinaryTree<T>,
    stack: Seq<usize>,
    f: spec_fn(T) -> ReportView<V>,
) -> ReportView<V>
    decreases stack.len(),
{
    if stack.len() == 0 {
        ReportView::empty()
    } else {
        pruned(t, stack.last() as int, f).concat(pending(t, stack.drop_last(), f))
    }
}

/// Number of nodes at and below node `i`.
pub open spec fn weight<T>(t: &BinaryTree<T>, i: int) -> nat
    decreases t.size() - i,
{
    if 0 <= i < t.size() {
        let right = match t.right_of(i) {
            Some(c) => if i < c < t.size() {
                weight(t, c)
            } else {
                0
            },
            None => 0,
        };
        let left = match t.left_of(i) {
            Some(c) => if i < c < t.size() {
                weight(t, c)
            } else {
                0
            },
            None => 0,
        };
        1 + right + left
    } else {
        0
    }
}

/// Number of nodes at and below the nodes on a stack.
pub open spec fn load<T>(t: &BinaryTree<T>, stack: Seq<usize>) -> nat
    decreases stack.len(),
{
    if stack.len() == 0 {
        0
    } else {
        weight(t, stack.last() as int) + load(t, stack.drop_last())
    }
}

/// Tests the items of the tree against `check_function`, from the root
/// down, and joins the reports of all leaves that the test hits. The
/// query descends below a node only where the test hits the item of that
/// node, and it reports every leaf that is hit, not only the first.
pub fn check_tree<T, V, F: Fn(&T) -> CollisionReport<V>>(t: &BinaryTree<T>, check_function: F) -> (report:
    CollisionReport<V>)
    requires
        t.wf(),
        forall|i: int| 0 <= i < t.size() ==> check_function.requires((&#[trigger] t.item_of(i),)),
    ensures
        forall|g: spec_fn(T) -> ReportView<V>| #[trigger]
            reports_as(check_function, g) ==> report@ == pruned(t, 0, g),
        (forall|item: T, r: CollisionReport<V>| check_function.ensures((&item,), r) ==> r.wf())
            ==> report.wf(),
{
    let mut node_queue: Vec<usize> = Vec::new();
    node_queue.push(0);
    let mut report: CollisionReport<V> = CollisionReport::none();
    proof {
        assert(node_queue@.drop_last() =~= Seq::<usize>::empty());
        assert(node_queue@.last() == 0);
        assert forall|g: spec_fn(T) -> ReportView<V>| #[trigger]
            reports_as(check_function, g) implies pruned(t, 0, g) == report@.concat(
            pending(t, node_queue@, g),
        ) by {
            lemma_concat_laws(pruned(t, 0, g), ReportView::empty(), ReportView::empty());
            assert(pending(t, Seq::<usize>::empty(), g) == ReportView::<V>::empty());
            assert(pending(t, node_queue@, g) == pruned(t, 0, g));
        }
    }
    while node_queue.len() > 0
        invariant
            t.wf(),
            forall|i: int|
                0 <= i < t.size() ==> check_function.requires((&#[trigger] t.item_of(i),)),
            forall|k: int| 0 <= k < node_queue@.len() ==> 0 <= #[trigger] node_queue@[k] < t.size(),
            forall|g: spec_fn(T) -> ReportView<V>| #[trigger]
                reports_as(check_function, g) ==> pruned(t, 0, g) == report@.concat(
                    pending(t, node_queue@, g),
                ),
            (forall|item: T, r: CollisionReport<V>| check_function.ensures((&item,), r) ==> r.wf())
                ==> report.wf(),
        decreases load(t, node_queue@),
    {
        let ghost before = node_queue@;
        let ghost acc = report@;
        let index = node_queue.pop().unwrap();
        let ghost rest = node_queue@;
        assert(rest == before.drop_last());
        let node = t.root().at(index);
        let this_report = check_function(node.item());
        let ghost here = this_report@;
        if this_report.collision() {
            let left = node.left();
            let right = node.right();
            let is_leaf = left.is_none() && right.is_none();
            if is_leaf {
                report.add_assign(this_report);
            }
            if let Some(n) = left {
                node_queue.push(n.index());
                assert(node_queue@.drop_last() == rest);
            }
            let ghost middle = node_queue@;
            if let Some(n) = right {
                node_queue.push(n.index());
                assert(node_queue@.drop_last() == middle);
            }
            proof {
                assert forall|g: spec_fn(T) -> ReportView<V>| #[trigger]
                    reports_as(check_function, g) implies pruned(t, 0, g) == report@.concat(
                    pending(t, node_queue@, g),
                ) by {
                    let left_part = match t.left_of(index as int) {
                        Some(c) => pruned(t, c, g),
                        None => ReportView::empty(),
                    };
                    let right_part = match t.right_of(index as int) {
                        Some(c) => pruned(t, c, g),
                        None => ReportView::empty(),
                    };
                    let tail = pending(t, rest, g);
                    assert(pending(t, middle, g) == left_part.concat(tail)) by {
                        lemma_concat_laws(tail, ReportView::empty(), ReportView::empty());
                    }
                    assert(pending(t, node_queue@, g) == right_part.concat(left_part.concat(tail)))
                        by {
                        lemma_concat_laws(
                            left_part.concat(tail),
                            ReportView::empty(),
                            ReportView::empty(),
                        );
                    }
                    assert(here == g(t.item_of(index as int)));
                    if is_leaf {
                        assert(pruned(t, index as int, g) == here);
                        lemma_concat_laws(tail, ReportView::empty(), ReportView::empty());
                        lemma_concat_laws(acc, here, tail);
                    } else {
                        assert(pruned(t, index as int, g) == right_part.concat(left_part));
                        lemma_concat_laws(right_part, left_part, tail);
                        lemma_concat_laws(acc, right_part.concat(left_part), tail);
                    }
                }
                assert(load(t, middle) == load(t, rest) + (match t.left_of(index as int) {
                    Some(c) => weight(t, c),
                    None => 0,
                }));
            }
        } else {
            proof {
                assert forall|g: spec_fn(T) -> ReportView<V>| #[trigger]
                    reports_as(check_function, g) implies pruned(t, 0, g) == report@.concat(
                    pending(t, node_queue@, g),
                ) by {
                    assert(here == g(t.item_of(index as int)));
                    lemma_concat_laws(pending(t, rest, g), ReportView::empty(), ReportView::empty());
                }
            }
        }
    }
    proof {
        assert forall|g: spec_fn(T) -> ReportView<V>| #[trigger]
            reports_as(check_function, g) implies report@ == pruned(t, 0, g) by {
            lemma_concat_laws(report@, ReportView::empty(), ReportView::empty());
        }
    }
    report
}

/// A binary tree as a value: the item of the root and what hangs below it
/// on either side.
pub enum Shape<T> {
    Node { item: T, left: Option<Box<Shape<T>>>, right: Option<Box<Shape<T>>> },
}

/// What encloses a set of boxes, and whether the set fills it.
pub type Enclosure<B, T> = spec_fn(Seq<B>) -> (T, bool);

/// The two halves of a set of boxes.
pub type Halves<B> = spec_fn(Seq<B>) -> (Seq<B>, Seq<B>);

/// Whether `g` says what `enclose` gives for each set of boxes.
pub open spec fn encloses_as<B, T, E: Fn(&Vec<B>) -> (T, bool)>(
    enclose: E,
    g: Enclosure<B, T>,
) -> bool {
    forall|v: Vec<B>, r: (T, bool)| #[trigger] enclose.ensures((&v,), r) ==> r == g(v@)
}

/// Whether `g` says what `split` gives for each set of boxes.
pub open spec fn splits_as<B, S: Fn(Vec<B>) -> (Vec<B>, Vec<B>)>(split: S, g: Halves<B>) -> bool {
    forall|v: Vec<B>, r: (Vec<B>, Vec<B>)| #[trigger] split.ensures((v,), r) ==> (r.0@, r.1@) == g(v@)
}

/// The tree that stands at and below node `i`.
pub open spec fn shape_at<T>(t: &BinaryTree<T>, i: int) -> Shape<T>
    decreases t.size() - i,
{
    if 0 <= i < t.size() {
        Shape::Node {
            item: t.item_of(i),
            left: match t.left_of(i) {
                Some(c) => if i < c < t.size() {
                    Some(Box::new(shape_at(t, c)))
                } else {
                    None
                },
                None => None,
            },
            right: match t.right_of(i) {
                Some(c) => if i < c < t.size() {
                    Some(Box::new(shape_at(t, c)))
                } else {
                    None
                },
                None => None,
            },
        }
    } else {
        arbitrary()
    }
}

/// The tree over `boxes`. Its root holds what encloses all of them. Where
/// that enclosure is full, the root has no children. Otherwise the boxes
/// are split in two, and the trees over the two halves hang below the
/// root, the first half on the left.
pub open spec fn built<B, T>(
    boxes: Seq<B>,
    enclose: Enclosure<B, T>,
    split: Halves<B>,
) -> Shape<T>
    decreases boxes.len(),
{
    let (item, full) = enclose(boxes);
    let (first, second) = split(boxes);
    if !full && first.len() < boxes.len() && second.len() < boxes.len() {
        Shape::Node {
            item,
            left: Some(Box::new(built(first, enclose, split))),
            right: Some(Box::new(built(second, enclose, split))),
        }
    } else {
        Shape::Node { item, left: None, right: None }
    }
}

/// A node that still waits for its children, with the boxes that belong
/// below it.
pub type Pending<B> = (BinaryTreeNodeHandleMut, Vec<B>);

/// The boxes that wait at node `i`, if the node is on the stack.
pub open spec fn waiting<B>(stack: Seq<Pending<B>>, i: int) -> Option<Seq<B>> {
    if exists|k: int| 0 <= k < stack.len() && (#[trigger] stack[k]).0.position() == i {
        let k = choose|k: int| 0 <= k < stack.len() && (#[trigger] stack[k]).0.position() == i;
        Some(stack[k].1@)
    } else {
        None
    }
}

/// The tree that will stand at and below node `i` once every node on the
/// stack has got the tree over its boxes.
pub open spec fn expanded<B, T>(
    t: &BinaryTree<T>,
    i: int,
    stack: Seq<Pending<B>>,
    enclose: Enclosure<B, T>,
    split: Halves<B>,
) -> Shape<T>
    decreases t.size() - i,
{
    if 0 <= i < t.size() {
        match waiting(stack, i) {
            Some(boxes) => built(boxes, enclose, split),
            None => Shape::Node {
                item: t.item_of(i),
                left: match t.left_of(i) {
                    Some(c) => if i < c < t.size() {
                        Some(Box::new(expanded(t, c, stack, enclose, split)))
                    } else {
                        None
                    },
                    None => None,
                },
                right: match t.right_of(i) {
                    Some(c) => if i < c < t.size() {
                        Some(Box::new(expanded(t, c, stack, enclose, split)))
                    } else {
                        None
                    },
                    None => None,
                },
            },
        }
    } else {
        arbitrary()
    }
}

/// With nothing on the stack the tree is what it is.
proof fn lemma_expanded_done<B, T>(
    t: &BinaryTree<T>,
    i: int,
    enclose: Enclosure<B, T>,
    split: Halves<B>,
)
    requires
        0 <= i < t.size(),
    ensures
        expanded(t, i, Seq::<Pending<B>>::empty(), enclose, split) == shape_at(t, i),
    decreases t.size() - i,
{
    let stack = Seq::<Pending<B>>::empty();
    assert(waiting(stack, i).is_none());
    if let Some(c) = t.left_of(i) {
        if i < c < t.size() {
            lemma_expanded_done::<B, T>(t, c, enclose, split);
        }
    }
    if let Some(c) = t.right_of(i) {
        if i < c < t.size() {
            lemma_expanded_done::<B, T>(t, c, enclose, split);
        }
    }
}

/// What the stack still stands for in work: twice the number of waiting
/// boxes, less one for each waiting node.
pub open spec fn burden<B>(stack: Seq<Pending<B>>) -> int
    decreases stack.len(),
{
    if stack.len() == 0 {
        0
    } else {
        2 * stack.last().1@.len() - 1 + burden(stack.drop_last())
    }
}

/// The burden of a stack is never negative where every node waits with a
/// box at least.
proof fn lemma_burden_bound<B>(stack: Seq<Pending<B>>)
    requires
        forall|k: int| 0 <= k < stack.len() ==> (#[trigger] stack[k]).1@.len() >= 1,
    ensures
        burden(stack) >= 0,
    decreases stack.len(),
{
    if stack.len() > 0 {
        assert(stack[stack.len() - 1].1@.len() >= 1);
        lemma_burden_bound(stack.drop_last());
    }
}

/// The nodes on the stack are distinct leaves of the tree, each with two
/// boxes or more.
pub open spec fn stack_ok<B, T>(t: &BinaryTree<T>, stack: Seq<Pending<B>>) -> bool {
    &&& forall|k: int|
        0 <= k < stack.len() ==> {
            &&& 0 <= (#[trigger] stack[k]).0.position() < t.size()
            &&& t.left_of(stack[k].0.position()).is_none()
            &&& t.right_of(stack[k].0.position()).is_none()
            &&& stack[k].1@.len() >= 2
        }
    &&& forall|k1: int, k2: int|
        0 <= k1 < k2 < stack.len() ==> (#[trigger] stack[k1]).0.position() != (
        #[trigger] stack[k2]).0.position()
}

/// Each node on the stack holds what encloses its boxes, and that
/// enclosure is not full.
pub open spec fn stack_items<B, T>(
    t: &BinaryTree<T>,
    stack: Seq<Pending<B>>,
    enclose: Enclosure<B, T>,
) -> bool {
    forall|k: int|
        0 <= k < stack.len() ==> {
            &&& t.item_of((#[trigger] stack[k]).0.position()) == enclose(stack[k].1@).0
            &&& !enclose(stack[k].1@).1
        }
}

/// A node on a stack of distinct nodes waits with the boxes that stand
/// beside it.
proof fn lemma_waiting_found<B>(stack: Seq<Pending<B>>, k: int)
    requires
        0 <= k < stack.len(),
        forall|k1: int, k2: int|
            0 <= k1 < k2 < stack.len() ==> (#[trigger] stack[k1]).0.position() != (
            #[trigger] stack[k2]).0.position(),
    ensures
        waiting(stack, stack[k].0.position()) == Some(stack[k].1@),
{
    let i = stack[k].0.position();
    let c = choose|c: int| 0 <= c < stack.len() && (#[trigger] stack[c]).0.position() == i;
    if c < k {
        assert(stack[c].0.position() != stack[k].0.position());
    } else if k < c {
        assert(stack[k].0.position() != stack[c].0.position());
    }
}

/// Whether `after` is `before` with two new leaves below the leaf `n`: one
/// that holds `first` on the left and one that holds `second` on the
/// right.
pub open spec fn branched<T>(
    before: &BinaryTree<T>,
    after: &BinaryTree<T>,
    n: int,
    first: T,
    second: T,
) -> bool {
    let size = before.size();
    &&& after.size() == size + 2
    &&& after.item_of(size) == first
    &&& after.item_of(size + 1) == second
    &&& after.left_of(size).is_none() && after.right_of(size).is_none()
    &&& after.left_of(size + 1).is_none() && after.right_of(size + 1).is_none()
    &&& forall|i: int| 0 <= i < size ==> #[trigger] after.item_of(i) == before.item_of(i)
    &&& forall|i: int|
        0 <= i < size ==> #[trigger] after.left_of(i) == if i == n {
            Some(size)
        } else {
            before.left_of(i)
        }
    &&& forall|i: int|
        0 <= i < size ==> #[trigger] after.right_of(i) == if i == n {
            Some(size + 1)
        } else {
            before.right_of(i)
        }
}

/// One step of the construction leaves unchanged what the tree will be:
/// the node that waited with `boxes` gets two children, and each child
/// either waits in turn with its half of the boxes or, where its enclosure
/// is full, is done.
proof fn lemma_expanded_step<B, T>(
    before: &BinaryTree<T>,
    after: &BinaryTree<T>,
    old_stack: Seq<Pending<B>>,
    new_stack: Seq<Pending<B>>,
    enclose: Enclosure<B, T>,
    split: Halves<B>,
    i: int,
)
    requires
        before.wf(),
        old_stack.len() > 0,
        stack_ok(before, old_stack),
        stack_items(before, old_stack, enclose),
        stack_ok(after, new_stack),
        ({
            let n = old_stack.last().0.position();
            let boxes = old_stack.last().1@;
            let halves = split(boxes);
            let first = enclose(halves.0);
            let second = enclose(halves.1);
            let rest = old_stack.drop_last();
            let size = before.size();
            &&& halves.0.len() < boxes.len()
            &&& halves.1.len() < boxes.len()
            &&& branched(before, after, n, first.0, second.0)
            &&& forall|k: int| 0 <= k < rest.len() ==> #[trigger] new_stack[k] == rest[k]
            &&& rest.len() <= new_stack.len() <= rest.len() + 2
            &&& forall|k: int|
                rest.len() <= k < new_stack.len() ==> {
                    ||| (#[trigger] new_stack[k]).0.position() == size && new_stack[k].1@
                        == halves.0
                    ||| new_stack[k].0.position() == size + 1 && new_stack[k].1@ == halves.1
                }
            &&& !first.1 ==> exists|k: int|
                rest.len() <= k < new_stack.len() && (#[trigger] new_stack[k]).0.position()
                    == size
            &&& !second.1 ==> exists|k: int|
                rest.len() <= k < new_stack.len() && (#[trigger] new_stack[k]).0.position()
                    == size + 1
            &&& first.1 ==> forall|k: int|
                rest.len() <= k < new_stack.len() ==> (#[trigger] new_stack[k]).0.position()
                    != size
            &&& second.1 ==> forall|k: int|
                rest.len() <= k < new_stack.len() ==> (#[trigger] new_stack[k]).0.position()
                    != size + 1
        }),
        0 <= i < before.size(),
    ensures
        expanded(after, i, new_stack, enclose, split) == expanded(
            before,
            i,
            old_stack,
            enclose,
            split,
        ),
    decreases before.size() - i,
{
    let n = old_stack.last().0.position();
    let boxes = old_stack.last().1@;
    let halves = split(boxes);
    let first = enclose(halves.0);
    let second = enclose(halves.1);
    let rest = old_stack.drop_last();
    let size = before.size();
    let last = old_stack.len() - 1;
    assert(old_stack[last] == old_stack.last());
    assert forall|k: int| 0 <= k < rest.len() implies rest[k] == old_stack[k] by {}
    if i == n {
        lemma_waiting_found(old_stack, last);
        // the node no longer waits
        if exists|k: int| 0 <= k < new_stack.len() && (#[trigger] new_stack[k]).0.position() == n {
            let k = choose|k: int|
                0 <= k < new_stack.len() && (#[trigger] new_stack[k]).0.position() == n;
            if k < rest.len() {
                assert(old_stack[k].0.position() != old_stack[last].0.position());
            }
        }
        assert(waiting(new_stack, n).is_none());
        // each child waits or is done
        if !first.1 {
            let k = choose|k: int|
                rest.len() <= k < new_stack.len() && (#[trigger] new_stack[k]).0.position()
                    == size;
            lemma_waiting_found(new_stack, k);
        } else {
            if exists|k: int|
                0 <= k < new_stack.len() && (#[trigger] new_stack[k]).0.position() == size {
                let k = choose|k: int|
                    0 <= k < new_stack.len() && (#[trigger] new_stack[k]).0.position() == size;
                if k < rest.len() {
                    assert(old_stack[k].0.position() < size);
                }
            }
            assert(waiting(new_stack, size).is_none());
        }
        if !second.1 {
            let k = choose|k: int|
                rest.len() <= k < new_stack.len() && (#[trigger] new_stack[k]).0.position()
                    == size + 1;
            lemma_waiting_found(new_stack, k);
        } else {
            if exists|k: int|
                0 <= k < new_stack.len() && (#[trigger] new_stack[k]).0.position() == size + 1 {
                let k = choose|k: int|
                    0 <= k < new_stack.len() && (#[trigger] new_stack[k]).0.position() == size
                        + 1;
                if k < rest.len() {
                    assert(old_stack[k].0.position() < size);
                }
            }
            assert(waiting(new_stack, size + 1).is_none());
        }
        assert(expanded(after, size, new_stack, enclose, split) == built(
            halves.0,
            enclose,
            split,
        ));
        assert(expanded(after, size + 1, new_stack, enclose, split) == built(
            halves.1,
            enclose,
            split,
        ));
        assert(after.left_of(n) == Some(size));
        assert(after.right_of(n) == Some(size + 1));
        assert(after.item_of(n) == before.item_of(n));
    } else {
        // the node waits after the step where it waited before
        if exists|k: int| 0 <= k < old_stack.len() && (#[trigger] old_stack[k]).0.position() == i {
            let k = choose|k: int|
                0 <= k < old_stack.len() && (#[trigger] old_stack[k]).0.position() == i;
            assert(k < rest.len());
            assert(new_stack[k] == rest[k]);
            lemma_waiting_found(old_stack, k);
            lemma_waiting_found(new_stack, k);
        } else {
            if exists|k: int|
                0 <= k < new_stack.len() && (#[trigger] new_stack[k]).0.position() == i {
                let k = choose|k: int|
                    0 <= k < new_stack.len() && (#[trigger] new_stack[k]).0.position() == i;
                if k < rest.len() {
                    assert(new_stack[k] == rest[k]);
                    assert(old_stack[k].0.position() == i);
                }
            }
            assert(waiting(new_stack, i).is_none());
            assert(after.item_of(i) == before.item_of(i));
            assert(after.left_of(i) == before.left_of(i));
            assert(after.right_of(i) == before.right_of(i));
            if let Some(c) = before.left_of(i) {
                lemma_expanded_step(before, after, old_stack, new_stack, enclose, split, c);
            }
            if let Some(c) = before.right_of(i) {
                lemma_expanded_step(before, after, old_stack, new_stack, enclose, split, c);
            }
        }
    }
}

/// Builds the tree over `boxes`. `enclose` gives what encloses a set of
/// boxes and whether the set fills it; `split` divides a set of two or
/// more boxes into two smaller sets. The root holds the enclosure of all
/// boxes; a node whose enclosure is full gets no children; every other
/// node gets the enclosures of the two halves as children.
pub fn make_tree<B, T, E: Fn(&Vec<B>) -> (T, bool), S: Fn(Vec<B>) -> (Vec<B>, Vec<B>)>(
    boxes: Vec<B>,
    enclose: E,
    split: S,
) -> (tree: BinaryTree<T>)
    requires
        boxes@.len() > 0,
        forall|v: Vec<B>| v@.len() > 0 ==> #[trigger] enclose.requires((&v,)),
        forall|v: Vec<B>| v@.len() >= 2 ==> #[trigger] split.requires((v,)),
        forall|v: Vec<B>, r: (T, bool)| #[trigger]
            enclose.ensures((&v,), r) && v@.len() == 1 ==> r.1,
        forall|v: Vec<B>, r: (Vec<B>, Vec<B>)| #[trigger]
            split.ensures((v,), r) && v@.len() >= 2 ==> r.0@.len() > 0 && r.1@.len() > 0
                && r.0@.len() + r.1@.len() == v@.len(),
    ensures
        tree.wf(),
        exists|full: bool| enclose.ensures((&boxes,), (tree.item_of(0), full)),
        forall|ge: Enclosure<B, T>, gs: Halves<B>|
            encloses_as(enclose, ge) && splits_as(split, gs) ==> #[trigger] shape_at(&tree, 0)
                == built(boxes@, ge, gs),
{
    let (superbox, is_full) = enclose(&boxes);
    let mut tree = BinaryTree::new(superbox);
    assert(enclose.ensures((&boxes,), (tree.item_of(0), is_full)));
    let mut node_queue: Vec<Pending<B>> = Vec::new();
    let ghost all = boxes@;
    if is_full {
        proof {
            assert forall|ge: Enclosure<B, T>, gs: Halves<B>|
                encloses_as(enclose, ge) && splits_as(split, gs) implies shape_at(&tree, 0)
                == #[trigger] built(all, ge, gs) by {
                lemma_expanded_done::<B, T>(&tree, 0, ge, gs);
                assert(waiting(Seq::<Pending<B>>::empty(), 0).is_none());
            }
        }
        return tree;
    }
    let root = tree.root_mut();
    node_queue.push((root, boxes));
    proof {
        assert(node_queue@.drop_last() =~= Seq::<Pending<B>>::empty());
        assert(burden(node_queue@.drop_last()) == 0);
        lemma_waiting_found(node_queue@, 0);
    }
    while node_queue.len() > 0
        invariant
            tree.wf(),
            tree.item_of(0) == superbox,
            stack_ok(&tree, node_queue@),
            forall|ge: Enclosure<B, T>, gs: Halves<B>|
                encloses_as(enclose, ge) && splits_as(split, gs) ==> stack_items(
                    &tree,
                    node_queue@,
                    ge,
                ) && expanded(&tree, 0, node_queue@, ge, gs) == #[trigger] built(all, ge, gs),
            forall|v: Vec<B>| v@.len() > 0 ==> #[trigger] enclose.requires((&v,)),
            forall|v: Vec<B>| v@.len() >= 2 ==> #[trigger] split.requires((v,)),
            forall|v: Vec<B>, r: (T, bool)| #[trigger]
                enclose.ensures((&v,), r) && v@.len() == 1 ==> r.1,
            forall|v: Vec<B>, r: (Vec<B>, Vec<B>)| #[trigger]
                split.ensures((v,), r) && v@.len() >= 2 ==> r.0@.len() > 0 && r.1@.len() > 0 && r.0@.len()
                    + r.1@.len() == v@.len(),
        decreases burden(node_queue@),
    {
        let ghost old_stack = node_queue@;
        let ghost before = tree;
        let (node, boxes) = node_queue.pop().unwrap();
        let ghost rest = node_queue@;
        let ghost waited = boxes;
        assert(rest == old_stack.drop_last());
        assert(old_stack.last() == (node, boxes));
        let (left_array, right_array) = split(boxes);
        let (left_box, left_full) = enclose(&left_array);
        let (right_box, right_full) = enclose(&right_array);
        node.insert_left(&mut tree, left_box);
        node.insert_right(&mut tree, right_box);
        let left = node.left(&tree).unwrap();
        let right = node.right(&tree).unwrap();
        assert(branched(&before, &tree, node.position(), left_box, right_box));
        if !left_full {
            node_queue.push((left, left_array));
        }
        let ghost middle = node_queue@;
        if !right_full {
            node_queue.push((right, right_array));
        }
        proof {
            let new_stack = node_queue@;
            assert forall|k: int| 0 <= k < rest.len() implies #[trigger] new_stack[k]
                == rest[k] by {}
            assert(burden(old_stack) == 2 * waited@.len() - 1 + burden(rest));
            assert(left_array@.len() + right_array@.len() == waited@.len());
            lemma_burden_bound(rest);
            assert(burden(middle) == burden(rest) + if left_full {
                0
            } else {
                2 * left_array@.len() - 1
            }) by {
                if !left_full {
                    assert(middle.drop_last() == rest);
                }
            }
            assert(burden(new_stack) == burden(middle) + if right_full {
                0
            } else {
                2 * right_array@.len() - 1
            }) by {
                if !right_full {
                    assert(new_stack.drop_last() == middle);
                }
            }
            assert(stack_ok(&tree, new_stack)) by {
                assert forall|k: int| 0 <= k < new_stack.len() implies {
                    &&& 0 <= (#[trigger] new_stack[k]).0.position() < tree.size()
                    &&& tree.left_of(new_stack[k].0.position()).is_none()
                    &&& tree.right_of(new_stack[k].0.position()).is_none()
                    &&& new_stack[k].1@.len() >= 2
                } by {
                    if k < rest.len() {
                        assert(new_stack[k] == old_stack[k]);
                        assert(old_stack[k].0.position() != old_stack[old_stack.len()
                            - 1].0.position());
                    }
                }
                assert forall|k1: int, k2: int| 0 <= k1 < k2 < new_stack.len() implies (
                #[trigger] new_stack[k1]).0.position() != (
                #[trigger] new_stack[k2]).0.position() by {
                    if k2 < rest.len() {
                        assert(new_stack[k1] == old_stack[k1]);
                        assert(new_stack[k2] == old_stack[k2]);
                    } else if k1 < rest.len() {
                        assert(new_stack[k1] == old_stack[k1]);
                    }
                }
            }
            assert forall|ge: Enclosure<B, T>, gs: Halves<B>|
                encloses_as(enclose, ge) && splits_as(split, gs) implies stack_items(
                &tree,
                new_stack,
                ge,
            ) && expanded(&tree, 0, new_stack, ge, gs) == #[trigger] built(all, ge, gs) by {
                assert(stack_items(&before, old_stack, ge));
                assert((left_array@, right_array@) == gs(waited@));
                assert((left_box, left_full) == ge(left_array@));
                assert((right_box, right_full) == ge(right_array@));
                assert(stack_items(&tree, new_stack, ge)) by {
                    assert forall|k: int| 0 <= k < new_stack.len() implies {
                        &&& tree.item_of((#[trigger] new_stack[k]).0.position()) == ge(
                            new_stack[k].1@,
                        ).0
                        &&& !ge(new_stack[k].1@).1
                    } by {
                        if k < rest.len() {
                            assert(new_stack[k] == old_stack[k]);
                        }
                    }
                }
                let size = before.size();
                assert(old_stack.last().1 == waited);
                assert(old_stack.last().0.position() == node.position());
                assert(old_stack.drop_last() == rest);
                assert(left.position() == size);
                assert(right.position() == size + 1);
                if !left_full {
                    assert(new_stack[rest.len() as int] == (left, left_array));
                    assert(new_stack[rest.len() as int].0.position() == size);
                }
                if !right_full {
                    assert(new_stack[new_stack.len() - 1] == (right, right_array));
                    assert(new_stack[new_stack.len() - 1].0.position() == size + 1);
                }
                assert forall|k: int| rest.len() <= k < new_stack.len() implies {
                    ||| (#[trigger] new_stack[k]).0.position() == size && new_stack[k].1@
                        == left_array@
                    ||| new_stack[k].0.position() == size + 1 && new_stack[k].1@ == right_array@
                } by {
                    if !left_full && k == rest.len() {
                        assert(new_stack[k] == (left, left_array));
                    } else {
                        assert(new_stack[k] == (right, right_array));
                    }
                }
                lemma_expanded_step(&before, &tree, old_stack, new_stack, ge, gs, 0);
            }
        }
    }
    proof {
        assert(node_queue@ =~= Seq::<Pending<B>>::empty());
        assert forall|ge: Enclosure<B, T>, gs: Halves<B>|
            encloses_as(enclose, ge) && splits_as(split, gs) implies #[trigger] shape_at(&tree, 0)
            == built(all, ge, gs) by {
            lemma_expanded_done::<B, T>(&tree, 0, ge, gs);
        }
    }
    tree
}

/// Whether `g` says what the test `f` answers for each box.
pub open spec fn answers_as<B, F: Fn(&B) -> bool>(f: F, g: spec_fn(B) -> bool) -> bool {
    forall|b: B, r: bool| #[trigger] f.ensures((&b,), r) ==> r == g(b)
}

/// The test that answers the opposite of `g`.
pub open spec fn negated<B>(g: spec_fn(B) -> bool) -> spec_fn(B) -> bool {
    |b: B| !g(b)
}

/// The two halves of a set of boxes: of two boxes the first and the
/// second; of more boxes those for which `g` holds and those for which it
/// does not, each half in the order of the set.
pub open spec fn divided<B>(boxes: Seq<B>, g: spec_fn(B) -> bool) -> (Seq<B>, Seq<B>) {
    if boxes.len() == 2 {
        (seq![boxes[0]], seq![boxes[1]])
    } else {
        (boxes.filter(g), boxes.filter(negated(g)))
    }
}

/// Splits a set of two or more boxes in two. Two boxes are split one and
/// one. Of more boxes, those for which `use_left` holds go to the first
/// half and the others to the second, each half in the order of the set.
pub fn subdivide<B, F: Fn(&B) -> bool>(boxes: Vec<B>, use_left: F) -> (halves: (Vec<B>, Vec<B>))
    requires
        boxes@.len() >= 2,
        forall|i: int| 0 <= i < boxes@.len() ==> use_left.requires((&#[trigger] boxes@[i],)),
    ensures
        halves.0@.len() + halves.1@.len() == boxes@.len(),
        boxes@.len() == 2 ==> halves.0@ == seq![boxes@[0]] && halves.1@ == seq![boxes@[1]],
        forall|g: spec_fn(B) -> bool| #[trigger]
            answers_as(use_left, g) ==> (halves.0@, halves.1@) == divided(boxes@, g),
{
    let ghost all = boxes@;
    let n = boxes.len();
    let mut boxes = boxes;
    let mut rest: Vec<B> = Vec::new();
    while boxes.len() > 0
        invariant
            n == all.len(),
            boxes@.len() + rest@.len() == n,
            forall|m: int| 0 <= m < boxes@.len() ==> boxes@[m] == all[m],
            forall|m: int| 0 <= m < rest@.len() ==> rest@[m] == all[n - 1 - m],
        decreases boxes@.len(),
    {
        let x = boxes.pop().unwrap();
        rest.push(x);
    }
    let mut left: Vec<B> = Vec::new();
    let mut right: Vec<B> = Vec::new();
    if n == 2 {
        let first = rest.pop().unwrap();
        let second = rest.pop().unwrap();
        left.push(first);
        right.push(second);
        assert(left@ =~= seq![all[0]]);
        assert(right@ =~= seq![all[1]]);
        return (left, right);
    }
    proof {
        assert(all.take(0) =~= Seq::<B>::empty());
        assert forall|g: spec_fn(B) -> bool| #[trigger] answers_as(use_left, g) implies left@
            == all.take(0).filter(g) && right@ == all.take(0).filter(negated(g)) by {
            reveal(Seq::filter);
        }
    }
    while rest.len() > 0
        invariant
            n == all.len(),
            n != 2,
            rest@.len() <= n,
            forall|m: int| 0 <= m < rest@.len() ==> rest@[m] == all[n - 1 - m],
            forall|i: int| 0 <= i < all.len() ==> use_left.requires((&#[trigger] all[i],)),
            left@.len() + right@.len() + rest@.len() == n,
            forall|g: spec_fn(B) -> bool| #[trigger]
                answers_as(use_left, g) ==> left@ == all.take(n - rest@.len()).filter(g) && right@
                    == all.take(n - rest@.len()).filter(negated(g)),
        decreases rest@.len(),
    {
        let ghost k = n - rest@.len();
        let x = rest.pop().unwrap();
        assert(x == all[k]);
        let goes_left = use_left(&x);
        if goes_left {
            left.push(x);
        } else {
            right.push(x);
        }
        proof {
            assert(all.take(k + 1) =~= all.take(k).push(all[k]));
            assert forall|g: spec_fn(B) -> bool| #[trigger] answers_as(use_left, g) implies left@
                == all.take(k + 1).filter(g) && right@ == all.take(k + 1).filter(negated(g)) by {
                assert(goes_left == g(x));
                all.take(k).lemma_filter_push(all[k], g);
                all.take(k).lemma_filter_push(all[k], negated(g));
            }
        }
    }
    proof {
        assert(all.take(n as int) =~= all);
    }
    (left, right)
}

/// A set of boxes that fills its enclosure gives a tree of one node, which
/// holds the enclosure.
pub proof fn lemma_full_set_gives_single_node<B, T>(
    boxes: Seq<B>,
    enclose: Enclosure<B, T>,
    split: Halves<B>,
)
    requires
        enclose(boxes).1,
    ensures
        built(boxes, enclose, split) == (Shape::Node {
            item: enclose(boxes).0,
            left: None,
            right: None,
        }),
{
}

/// A query against a tree of one node reports what the test reports for
/// the item of that node, once, where the test hits, and nothing where it
/// misses.
pub proof fn lemma_single_node_query<T, V>(t: &BinaryTree<T>, f: spec_fn(T) -> ReportView<V>)
    requires
        t.wf(),
        t.left_of(0).is_none(),
        t.right_of(0).is_none(),
    ensures
        pruned(t, 0, f) == if f(t.item_of(0)).collision() {
            f(t.item_of(0))
        } else {
            ReportView::empty()
        },
{
    let here = f(t.item_of(0));
    lemma_concat_laws(here, ReportView::empty(), ReportView::empty());
}

} // verus!
