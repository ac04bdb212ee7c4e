//! A binary tree kept in an arena: the nodes stand in one vector and refer
//! to each other by position. The root stands first and every child stands
//! behind its parent.

use vstd::prelude::*;

verus! {

struct BinaryTreeNode<T> {
    item: T,
    parent: Option<usize>,
    left: Option<usize>,
    right: Option<usize>,
}

/// A binary tree with an item in every node.
pub struct BinaryTree<T> {
    data: Vec<BinaryTreeNode<T>>,
}

/// A node of a tree that is borrowed for reading.
pub struct BinaryTreeNodeHandle<'a, T> {
    tree: &'a BinaryTree<T>,
    index: usize,
}

/// The position of a node in a tree that may be changed through it.
#[derive(Clone, Copy, Debug)]
pub struct BinaryTreeNodeHandleMut {
    index: usize,
}

impl<T> BinaryTree<T> {
    /// Number of nodes.
    pub closed spec fn size(&self) -> int {
        self.data@.len() as int
    }

    /// The item of node `i`.
    pub closed spec fn item_of(&self, i: int) -> T {
        self.data@[i].item
    }

    /// The parent of node `i`.
    pub closed spec fn parent_of(&self, i: int) -> Option<int> {
        match self.data@[i].parent {
            Some(p) => Some(p as int),
            None => None,
        }
    }

    /// The left child of node `i`.
    pub closed spec fn left_of(&self, i: int) -> Option<int> {
        match self.data@[i].left {
            Some(c) => Some(c as int),
            None => None,
        }
    }

    /// The right child of node `i`.
    pub closed spec fn right_of(&self, i: int) -> Option<int> {
        match self.data@[i].right {
            Some(c) => Some(c as int),
            None => None,
        }
    }

    /// Whether `c` is recorded as a child of `p`.
    pub open spec fn is_child(&self, p: int, c: int) -> bool {
        self.left_of(p) == Some(c) || self.right_of(p) == Some(c)
    }

    /// The tree has a root without a parent; every child stands behind its
    /// parent and names it as its parent; every other node is a child of
    /// the node that it names as its parent; no node is both children of
    /// one node.
    pub open spec fn wf(&self) -> bool {
        &&& self.size() >= 1
        &&& self.parent_of(0).is_none()
        &&& forall|i: int|
            0 <= i < self.size() ==> (#[trigger] self.left_of(i) matches Some(c) ==> i < c
                < self.size() && self.parent_of(c) == Some(i))
        &&& forall|i: int|
            0 <= i < self.size() ==> (#[trigger] self.right_of(i) matches Some(c) ==> i < c
                < self.size() && self.parent_of(c) == Some(i))
        &&& forall|i: int|
            0 < i < self.size() ==> (#[trigger] self.parent_of(i) matches Some(p) && 0 <= p < i
                && self.is_child(p, i))
        &&& forall|i: int|
            0 <= i < self.size() && self.left_of(i).is_some() ==> #[trigger] self.left_of(i)
                != self.right_of(i)
    }

    /// Whether `other` is this tree with one more node, which holds `item`
    /// and hangs below node `p` on the given side, where `p` had no child.
    pub open spec fn grown_by(&self, other: &BinaryTree<T>, p: int, left: bool, item: T) -> bool {
        let n = self.size();
        &&& other.size() == n + 1
        &&& other.item_of(n) == item
        &&& other.parent_of(n) == Some(p)
        &&& other.left_of(n).is_none()
        &&& other.right_of(n).is_none()
        &&& forall|i: int| 0 <= i < n ==> #[trigger] other.item_of(i) == self.item_of(i)
        &&& forall|i: int| 0 <= i < n ==> #[trigger] other.parent_of(i) == self.parent_of(i)
        &&& forall|i: int|
            0 <= i < n ==> #[trigger] other.left_of(i) == if i == p && left {
                Some(n)
            } else {
                self.left_of(i)
            }
        &&& forall|i: int|
            0 <= i < n ==> #[trigger] other.right_of(i) == if i == p && !left {
                Some(n)
            } else {
                self.right_of(i)
            }
    }

    /// A tree of one node.
    pub fn new(root_item: T) -> (t: Self)
        ensures
            t.wf(),
            t.size() == 1,
            t.item_of(0) == root_item,
            t.left_of(0).is_none(),
            t.right_of(0).is_none(),
    {
        let mut data: Vec<BinaryTreeNode<T>> = Vec::new();
        data.push(BinaryTreeNode { item: root_item, parent: None, left: None, right: None });
        BinaryTree { data }
    }

    /// The root, for reading.
    pub fn root<'a>(&'a self) -> (h: BinaryTreeNodeHandle<'a, T>)
        requires
            self.wf(),
        ensures
            h.tree() == self,
            h.position() == 0,
            h.wf(),
    {
        BinaryTreeNodeHandle { tree: self, index: 0 }
    }

    /// The position of the root, for changing the tree.
    pub fn root_mut(&self) -> (h: BinaryTreeNodeHandleMut)
        requires
            self.wf(),
        ensures
            h.position() == 0,
            h.valid_in(self),
    {
        BinaryTreeNodeHandleMut { index: 0 }
    }

    /// Number of nodes.
    pub fn len(&self) -> (n: usize)
        ensures
            n == self.size(),
    {
        self.data.len()
    }
}

impl<'a, T> BinaryTreeNodeHandle<'a, T> {
    /// The tree that the node belongs to.
    pub closed spec fn tree(&self) -> &'a BinaryTree<T> {
        self.tree
    }

    /// The position of the node in the arena.
    pub closed spec fn position(&self) -> int {
        self.index as int
    }

    /// The handle names a node of a well-formed tree.
    pub open spec fn wf(&self) -> bool {
        self.tree().wf() && 0 <= self.position() < self.tree().size()
    }

    /// The handle of node `i` of the same tree, where there is one.
    pub open spec fn moved_to(&self, to: Option<int>, h: Option<Self>) -> bool {
        match to {
            Some(i) => h.is_some() && h.unwrap().tree() == self.tree() && h.unwrap().position()
                == i && h.unwrap().wf(),
            None => h.is_none(),
        }
    }

    /// The parent, `None` at the root.
    pub fn parent(&self) -> (h: Option<Self>)
        requires
            self.wf(),
        ensures
            self.moved_to(self.tree().parent_of(self.position()), h),
    {
        match self.tree.data[self.index].parent {
            Some(index) => Some(BinaryTreeNodeHandle { tree: self.tree, index }),
            None => None,
        }
    }

    /// The left child, `None` where there is none.
    pub fn left(&self) -> (h: Option<Self>)
        requires
            self.wf(),
        ensures
            self.moved_to(self.tree().left_of(self.position()), h),
    {
        match self.tree.data[self.index].left {
            Some(index) => Some(BinaryTreeNodeHandle { tree: self.tree, index }),
            None => None,
        }
    }

    /// The right child, `None` where there is none.
    pub fn right(&self) -> (h: Option<Self>)
        requires
            self.wf(),
        ensures
            self.moved_to(self.tree().right_of(self.position()), h),
    {
        match self.tree.data[self.index].right {
            Some(index) => Some(BinaryTreeNodeHandle { tree: self.tree, index }),
            None => None,
        }
    }

    /// The node at position `index` of the same tree.
    pub fn at(&self, index: usize) -> (h: Self)
        requires
            self.tree().wf(),
            index < self.tree().size(),
        ensures
            h.tree() == self.tree(),
            h.position() == index,
            h.wf(),
    {
        BinaryTreeNodeHandle { tree: self.tree, index }
    }

    /// The item of the node.
    pub fn item(&self) -> (r: &'a T)
        requires
            self.wf(),
        ensures
            *r == self.tree().item_of(self.position()),
    {
        &self.tree.data[self.index].item
    }

    /// The position of the node in the arena.
    pub fn index(&self) -> (i: usize)
        ensures
            i == self.position(),
    {
        self.index
    }
}

impl BinaryTreeNodeHandleMut {
    /// The position of the node in the arena.
    pub closed spec fn position(&self) -> int {
        self.index as int
    }

    /// The handle names a node of `tree`, which is well formed.
    pub open spec fn valid_in<T>(&self, tree: &BinaryTree<T>) -> bool {
        tree.wf() && 0 <= self.position() < tree.size()
    }

    /// The handle of node `to`, where there is one.
    pub open spec fn moved_to(to: Option<int>, h: Option<Self>) -> bool {
        match to {
            Some(i) => h.is_some() && h.unwrap().position() == i,
            None => h.is_none(),
        }
    }

    /// The position of the node in the arena.
    pub fn index(&self) -> (i: usize)
        ensures
            i == self.position(),
    {
        self.index
    }

    /// The parent, `None` at the root.
    pub fn parent<T>(&self, tree: &BinaryTree<T>) -> (h: Option<Self>)
        requires
            self.valid_in(tree),
        ensures
            Self::moved_to(tree.parent_of(self.position()), h),
            h matches Some(p) ==> p.valid_in(tree),
    {
        match tree.data[self.index].parent {
            Some(index) => Some(BinaryTreeNodeHandleMut { index }),
            None => None,
        }
    }

    /// The left child, `None` where there is none.
    pub fn left<T>(&self, tree: &BinaryTree<T>) -> (h: Option<Self>)
        requires
            self.valid_in(tree),
        ensures
            Self::moved_to(tree.left_of(self.position()), h),
            h matches Some(c) ==> c.valid_in(tree),
    {
        match tree.data[self.index].left {
            Some(index) => Some(BinaryTreeNodeHandleMut { index }),
            None => None,
        }
    }

    /// The right child, `None` where there is none.
    pub fn right<T>(&self, tree: &BinaryTree<T>) -> (h: Option<Self>)
        requires
            self.valid_in(tree),
        ensures
            Self::moved_to(tree.right_of(self.position()), h),
            h matches Some(c) ==> c.valid_in(tree),
    {
        match tree.data[self.index].right {
            Some(index) => Some(BinaryTreeNodeHandleMut { index }),
            None => None,
        }
    }
}

impl BinaryTreeNodeHandleMut {
    /// Hangs a new node that holds `item` below this node, on the given
    /// side, and returns its position.
    fn attach<T>(&self, tree: &mut BinaryTree<T>, left: bool, item: T) -> (h: Self)
        requires
            self.valid_in(old(tree)),
            left ==> old(tree).left_of(self.position()).is_none(),
            !left ==> old(tree).right_of(self.position()).is_none(),
        ensures
            old(tree).grown_by(final(tree), self.position(), left, item),
            final(tree).wf(),
            h.position() == old(tree).size(),
            h.valid_in(final(tree)),
            self.valid_in(final(tree)),
    {
        let new_index = tree.data.len();
        let ghost before = *tree;
        tree.data.push(BinaryTreeNode { item, parent: Some(self.index), left: None, right: None });
        if left {
            tree.data[self.index].left = Some(new_index);
        } else {
            tree.data[self.index].right = Some(new_index);
        }
        proof {
            let n = before.size();
            let me = self.position();
            assert(before.grown_by(tree, me, left, item));
            assert forall|i: int| 0 <= i < tree.size() implies (#[trigger] tree.left_of(
                i,
            ) matches Some(c) ==> i < c < tree.size() && tree.parent_of(c) == Some(i)) by {
                if i < n && !(i == me && left) {
                    assert(tree.left_of(i) == before.left_of(i));
                    if let Some(c) = before.left_of(i) {
                        assert(tree.parent_of(c) == before.parent_of(c));
                    }
                }
            }
            assert forall|i: int| 0 <= i < tree.size() implies (#[trigger] tree.right_of(
                i,
            ) matches Some(c) ==> i < c < tree.size() && tree.parent_of(c) == Some(i)) by {
                if i < n && !(i == me && !left) {
                    assert(tree.right_of(i) == before.right_of(i));
                    if let Some(c) = before.right_of(i) {
                        assert(tree.parent_of(c) == before.parent_of(c));
                    }
                }
            }
            assert forall|i: int| 0 < i < tree.size() implies (#[trigger] tree.parent_of(
                i,
            ) matches Some(p) && 0 <= p < i && tree.is_child(p, i)) by {
                if i < n {
                    assert(tree.parent_of(i) == before.parent_of(i));
                    let p = before.parent_of(i).unwrap();
                    assert(before.is_child(p, i));
                    assert(tree.left_of(p) == if p == me && left {
                        Some(n)
                    } else {
                        before.left_of(p)
                    });
                    assert(tree.right_of(p) == if p == me && !left {
                        Some(n)
                    } else {
                        before.right_of(p)
                    });
                } else {
                    assert(tree.left_of(me) == if left {
                        Some(n)
                    } else {
                        before.left_of(me)
                    });
                    assert(tree.right_of(me) == if !left {
                        Some(n)
                    } else {
                        before.right_of(me)
                    });
                }
            }
            assert forall|i: int|
                0 <= i < tree.size() && tree.left_of(i).is_some() implies #[trigger] tree.left_of(
                i,
            ) != tree.right_of(i) by {
                if i < n {
                    assert(tree.left_of(i) == if i == me && left {
                        Some(n)
                    } else {
                        before.left_of(i)
                    });
                    assert(tree.right_of(i) == if i == me && !left {
                        Some(n)
                    } else {
                        before.right_of(i)
                    });
                    if let Some(c) = before.left_of(i) {
                        assert(c < n);
                    }
                    if let Some(c) = before.right_of(i) {
                        assert(c < n);
                    }
                }
            }
            assert(tree.parent_of(0) == before.parent_of(0));
        }
        BinaryTreeNodeHandleMut { index: new_index }
    }
}

impl<T> BinaryTree<T> {
    /// Whether node `i` is node `r` or stands below it.
    pub open spec fn in_subtree(&self, r: int, i: int) -> bool
        decreases i,
    {
        i == r || (0 <= r < i && match self.parent_of(i) {
            Some(p) => 0 <= p < i && self.in_subtree(r, p),
            None => false,
        })
    }

    /// Number of nodes before node `i` that stand neither at nor below node
    /// `r`: the position that node `i` has once the nodes at and below `r`
    /// are gone.
    pub open spec fn kept_before(&self, r: int, i: int) -> int
        decreases i,
    {
        if i <= 0 {
            0
        } else {
            self.kept_before(r, i - 1) + if self.in_subtree(r, i - 1) {
                0int
            } else {
                1int
            }
        }
    }

    /// Where a reference to node `c` points once the nodes at and below `r`
    /// are gone.
    pub open spec fn moved(&self, r: int, c: Option<int>) -> Option<int> {
        match c {
            Some(c) => if self.in_subtree(r, c) {
                None
            } else {
                Some(self.kept_before(r, c))
            },
            None => None,
        }
    }

    /// Whether node `i` of this tree, which stands neither at nor below
    /// `r`, is found in `other` at its new position with its item and with
    /// its references moved.
    pub open spec fn kept_in(&self, other: &BinaryTree<T>, r: int, i: int) -> bool {
        let j = self.kept_before(r, i);
        &&& other.item_of(j) == self.item_of(i)
        &&& other.parent_of(j) == self.moved(r, self.parent_of(i))
        &&& other.left_of(j) == self.moved(r, self.left_of(i))
        &&& other.right_of(j) == self.moved(r, self.right_of(i))
    }

    /// Whether `other` is this tree without the nodes at and below `r`:
    /// the other nodes stand in the same order, hold the same items, and
    /// refer to each other as before.
    pub open spec fn without(&self, other: &BinaryTree<T>, r: int) -> bool {
        &&& other.size() == self.kept_before(r, self.size())
        &&& forall|i: int|
            0 <= i < self.size() && !self.in_subtree(r, i) ==> #[trigger] self.kept_in(other, r, i)
    }

    /// Node `i` with its references as they are once the nodes at and
    /// below `r` are gone.
    spec fn remapped(&self, r: int, i: int) -> BinaryTreeNode<T> {
        BinaryTreeNode {
            item: self.data@[i].item,
            parent: match self.moved(r, self.parent_of(i)) {
                Some(p) => Some(p as usize),
                None => None,
            },
            left: match self.moved(r, self.left_of(i)) {
                Some(p) => Some(p as usize),
                None => None,
            },
            right: match self.moved(r, self.right_of(i)) {
                Some(p) => Some(p as usize),
                None => None,
            },
        }
    }

    /// The first `upto` nodes without those at and below `r`.
    spec fn compacted(&self, r: int, upto: int) -> Seq<BinaryTreeNode<T>>
        decreases upto,
    {
        if upto <= 0 {
            Seq::empty()
        } else if self.in_subtree(r, upto - 1) {
            self.compacted(r, upto - 1)
        } else {
            self.compacted(r, upto - 1).push(self.remapped(r, upto - 1))
        }
    }

    /// The position of a node never exceeds the number of nodes before it,
    /// and positions do not decrease along the arena.
    pub proof fn lemma_kept_before_bounds(&self, r: int, i: int, j: int)
        requires
            0 <= i <= j,
        ensures
            0 <= self.kept_before(r, i) <= i,
            self.kept_before(r, i) <= self.kept_before(r, j),
            i < j && !self.in_subtree(r, i) ==> self.kept_before(r, i) < self.kept_before(r, j),
        decreases j,
    {
        if i > 0 {
            self.lemma_kept_before_bounds(r, i - 1, i - 1);
        }
        if i < j {
            self.lemma_kept_before_bounds(r, i, j - 1);
        }
    }

    /// Nodes at or before `r` keep their position.
    pub proof fn lemma_kept_before_prefix(&self, r: int, i: int)
        requires
            0 <= i <= r,
        ensures
            self.kept_before(r, i) == i,
        decreases i,
    {
        if i > 0 {
            self.lemma_kept_before_prefix(r, i - 1);
        }
    }

    /// Every position below the number of kept nodes is the position of a
    /// kept node.
    pub proof fn lemma_kept_before_onto(&self, r: int, upto: int, j: int) -> (i: int)
        requires
            0 <= j < self.kept_before(r, upto),
        ensures
            0 <= i < upto,
            !self.in_subtree(r, i),
            self.kept_before(r, i) == j,
        decreases upto,
    {
        if upto <= 0 {
            0
        } else if !self.in_subtree(r, upto - 1) && self.kept_before(r, upto - 1) == j {
            upto - 1
        } else {
            self.lemma_kept_before_onto(r, upto - 1, j)
        }
    }

    proof fn lemma_compacted(&self, r: int, upto: int)
        requires
            0 <= upto,
        ensures
            self.compacted(r, upto).len() == self.kept_before(r, upto),
            forall|i: int|
                0 <= i < upto && !self.in_subtree(r, i) ==> self.compacted(r, upto)[self.kept_before(
                    r,
                    i,
                )] == #[trigger] self.remapped(r, i),
        decreases upto,
    {
        if upto > 0 {
            self.lemma_compacted(r, upto - 1);
            assert forall|i: int| 0 <= i < upto && !self.in_subtree(r, i) implies self.compacted(
                r,
                upto,
            )[self.kept_before(r, i)] == #[trigger] self.remapped(r, i) by {
                self.lemma_kept_before_bounds(r, i, upto - 1);
            }
        }
    }
}

/// A tree without the nodes at and below one of its nodes, other than the
/// root, is a tree.
pub proof fn lemma_without_wf<T>(before: &BinaryTree<T>, after: &BinaryTree<T>, r: int)
    requires
        before.wf(),
        0 < r < before.size(),
        before.without(after, r),
    ensures
        after.wf(),
{
    let n = before.size();
    let total = before.kept_before(r, n);
    before.lemma_kept_before_bounds(r, 0, n);
    before.lemma_kept_before_bounds(r, 1, n);
    assert(!before.in_subtree(r, 0));
    assert(before.kept_before(r, 0) == 0);
    assert(before.kept_before(r, 1) == 1);
    assert(before.kept_in(after, r, 0));
    assert forall|j: int| 0 <= j < after.size() implies (#[trigger] after.left_of(
        j,
    ) matches Some(c) ==> j < c < after.size() && after.parent_of(c) == Some(j)) by {
        let i = before.lemma_kept_before_onto(r, n, j);
        assert(before.kept_in(after, r, i));
        if let Some(c) = before.left_of(i) {
            if !before.in_subtree(r, c) {
                before.lemma_kept_before_bounds(r, i, c);
                before.lemma_kept_before_bounds(r, c, n);
                assert(before.kept_in(after, r, c));
            }
        }
    }
    assert forall|j: int| 0 <= j < after.size() implies (#[trigger] after.right_of(
        j,
    ) matches Some(c) ==> j < c < after.size() && after.parent_of(c) == Some(j)) by {
        let i = before.lemma_kept_before_onto(r, n, j);
        assert(before.kept_in(after, r, i));
        if let Some(c) = before.right_of(i) {
            if !before.in_subtree(r, c) {
                before.lemma_kept_before_bounds(r, i, c);
                before.lemma_kept_before_bounds(r, c, n);
                assert(before.kept_in(after, r, c));
            }
        }
    }
    assert forall|j: int| 0 < j < after.size() implies (#[trigger] after.parent_of(
        j,
    ) matches Some(p) && 0 <= p < j && after.is_child(p, j)) by {
        let i = before.lemma_kept_before_onto(r, n, j);
        assert(i > 0);
        assert(before.kept_in(after, r, i));
        let p = before.parent_of(i).unwrap();
        assert(before.is_child(p, i));
        assert(!before.in_subtree(r, p));
        before.lemma_kept_before_bounds(r, p, i);
        before.lemma_kept_before_bounds(r, 0, p);
        assert(before.kept_in(after, r, p));
        assert(before.kept_in(after, r, p));
    }
    assert forall|j: int|
        0 <= j < after.size() && after.left_of(j).is_some() implies #[trigger] after.left_of(j)
        != after.right_of(j) by {
        let i = before.lemma_kept_before_onto(r, n, j);
        assert(before.kept_in(after, r, i));
        assert(before.kept_in(after, r, i));
        let c1 = before.left_of(i).unwrap();
        if let Some(c2) = before.right_of(i) {
            if !before.in_subtree(r, c2) {
                if c1 < c2 {
                    before.lemma_kept_before_bounds(r, c1, c2);
                } else {
                    before.lemma_kept_before_bounds(r, c2, c1);
                }
            }
        }
    }
}

impl BinaryTreeNodeHandleMut {
    /// Removes this node and every node below it. The nodes that stay move
    /// up in the arena to fill the gaps and keep their order.
    pub fn delete<T>(self, tree: &mut BinaryTree<T>)
        requires
            self.valid_in(old(tree)),
            self.position() != 0,
        ensures
            old(tree).without(final(tree), self.position()),
            final(tree).wf(),
    {
        let r = self.index;
        let n = tree.data.len();
        let ghost before = *tree;
        let mut removed: Vec<bool> = Vec::new();
        let mut target: Vec<usize> = Vec::new();
        let mut kept: usize = 0;
        let mut i: usize = 0;
        while i < n
            invariant
                *tree == before,
                before.wf(),
                n == before.size(),
                0 < r < n,
                i <= n,
                removed@.len() == i,
                target@.len() == i,
                forall|k: int| 0 <= k < i ==> removed@[k] == before.in_subtree(r as int, k),
                forall|k: int| 0 <= k < i ==> target@[k] == before.kept_before(r as int, k),
                kept == before.kept_before(r as int, i as int),
                kept <= i,
            decreases n - i,
        {
            let gone = if i == r {
                true
            } else if i > r {
                match tree.data[i].parent {
                    Some(p) => removed[p],
                    None => false,
                }
            } else {
                false
            };
            proof {
                if i > r {
                    let p = before.parent_of(i as int).unwrap();
                    assert(0 <= p < i);
                }
            }
            removed.push(gone);
            target.push(kept);
            if !gone {
                kept = kept + 1;
            }
            i = i + 1;
        }
        let ghost total = before.kept_before(r as int, n as int);
        let ghost goal = before.compacted(r as int, n as int);
        proof {
            before.lemma_compacted(r as int, n as int);
        }
        let mut rev: Vec<BinaryTreeNode<T>> = Vec::new();
        while tree.data.len() > 0
            invariant
                before.wf(),
                n == before.size(),
                0 < r < n,
                tree.data@.len() <= n,
                tree.data@ == before.data@.take(tree.data@.len() as int),
                removed@.len() == n,
                target@.len() == n,
                forall|k: int| 0 <= k < n ==> removed@[k] == before.in_subtree(r as int, k),
                forall|k: int| 0 <= k < n ==> target@[k] == before.kept_before(r as int, k),
                total == before.kept_before(r as int, n as int),
                goal == before.compacted(r as int, n as int),
                goal.len() == total,
                forall|k: int|
                    0 <= k < n && !before.in_subtree(r as int, k) ==> goal[before.kept_before(
                        r as int,
                        k,
                    )] == #[trigger] before.remapped(r as int, k),
                rev@.len() == total - before.kept_before(r as int, tree.data@.len() as int),
                forall|m: int| 0 <= m < rev@.len() ==> rev@[m] == goal[total - 1 - m],
            decreases tree.data@.len(),
        {
            let node = tree.data.pop().unwrap();
            let at = tree.data.len();
            proof {
                assert(node == before.data@[at as int]);
                before.lemma_kept_before_bounds(r as int, at as int, n as int);
                before.lemma_kept_before_bounds(r as int, at + 1, n as int);
                assert(tree.data@ =~= before.data@.take(at as int));
            }
            if !removed[at] {
                proof {
                    if let Some(p) = before.parent_of(at as int) {
                        assert(at > 0);
                    }
                    if let Some(c) = before.left_of(at as int) {
                        assert(c < n);
                    }
                    if let Some(c) = before.right_of(at as int) {
                        assert(c < n);
                    }
                }
                let parent = match node.parent {
                    Some(p) => if removed[p] {
                        None
                    } else {
                        Some(target[p])
                    },
                    None => None,
                };
                let left = match node.left {
                    Some(c) => if removed[c] {
                        None
                    } else {
                        Some(target[c])
                    },
                    None => None,
                };
                let right = match node.right {
                    Some(c) => if removed[c] {
                        None
                    } else {
                        Some(target[c])
                    },
                    None => None,
                };
                let moved = BinaryTreeNode { item: node.item, parent, left, right };
                assert(moved == before.remapped(r as int, at as int));
                rev.push(moved);
            }
        }
        while rev.len() > 0
            invariant
                before.wf(),
                n == before.size(),
                0 < r < n,
                total == before.kept_before(r as int, n as int),
                goal == before.compacted(r as int, n as int),
                goal.len() == total,
                tree.data@.len() + rev@.len() == total,
                forall|m: int| 0 <= m < tree.data@.len() ==> tree.data@[m] == goal[m],
                forall|m: int| 0 <= m < rev@.len() ==> rev@[m] == goal[total - 1 - m],
            decreases rev@.len(),
        {
            let node = rev.pop().unwrap();
            tree.data.push(node);
        }
        proof {
            assert(tree.data@ =~= goal);
            assert forall|k: int|
                0 <= k < before.size() && !before.in_subtree(
                    r as int,
                    k,
                ) implies #[trigger] before.kept_in(tree, r as int, k) by {
                let node = before.remapped(r as int, k);
                before.lemma_compacted(r as int, n as int);
                before.lemma_kept_before_bounds(r as int, k, n as int);
                assert(tree.data@[before.kept_before(r as int, k)] == node);
                if let Some(p) = before.parent_of(k) {
                    before.lemma_kept_before_bounds(r as int, p, n as int);
                }
                if let Some(c) = before.left_of(k) {
                    before.lemma_kept_before_bounds(r as int, c, n as int);
                }
                if let Some(c) = before.right_of(k) {
                    before.lemma_kept_before_bounds(r as int, c, n as int);
                }
            }
            lemma_without_wf(&before, tree, r as int);
        }
    }
}

impl BinaryTreeNodeHandleMut {
    /// Removes the child on the given side, if there is one, with
    /// everything below it.
    fn clear<T>(&self, tree: &mut BinaryTree<T>, left: bool)
        requires
            self.valid_in(old(tree)),
        ensures
            final(tree).wf(),
            self.valid_in(final(tree)),
            left ==> final(tree).left_of(self.position()).is_none(),
            !left ==> final(tree).right_of(self.position()).is_none(),
            match (if left {
                old(tree).left_of(self.position())
            } else {
                old(tree).right_of(self.position())
            }) {
                Some(c) => old(tree).without(final(tree), c),
                None => *final(tree) == *old(tree),
            },
    {
        let child = if left {
            self.left(tree)
        } else {
            self.right(tree)
        };
        if let Some(h) = child {
            let ghost before = *tree;
            let ghost me = self.position();
            let ghost c = h.position();
            h.delete(tree);
            proof {
                before.lemma_kept_before_prefix(c, me);
                before.lemma_kept_before_bounds(c, me, before.size());
                assert(!before.in_subtree(c, me));
                assert(before.kept_in(tree, c, me));
            }
        }
    }

    /// Hangs a new node that holds `item` below this node as its left
    /// child. A left child that the node had before is removed with
    /// everything below it.
    pub fn insert_left<T>(&self, tree: &mut BinaryTree<T>, item: T)
        requires
            self.valid_in(old(tree)),
        ensures
            final(tree).wf(),
            self.valid_in(final(tree)),
            match old(tree).left_of(self.position()) {
                None => old(tree).grown_by(final(tree), self.position(), true, item),
                Some(c) => exists|mid: BinaryTree<T>|
                    old(tree).without(&mid, c) && (#[trigger] mid.grown_by(
                        final(tree),
                        self.position(),
                        true,
                        item,
                    )),
            },
    {
        self.clear(tree, true);
        let ghost mid = *tree;
        self.attach(tree, true, item);
        assert(mid.grown_by(tree, self.position(), true, item));
    }

    /// Hangs a new node that holds `item` below this node as its right
    /// child. A right child that the node had before is removed with
    /// everything below it.
    pub fn insert_right<T>(&self, tree: &mut BinaryTree<T>, item: T)
        requires
            self.valid_in(old(tree)),
        ensures
            final(tree).wf(),
            self.valid_in(final(tree)),
            match old(tree).right_of(self.position()) {
                None => old(tree).grown_by(final(tree), self.position(), false, item),
                Some(c) => exists|mid: BinaryTree<T>|
                    old(tree).without(&mid, c) && (#[trigger] mid.grown_by(
                        final(tree),
                        self.position(),
                        false,
                        item,
                    )),
            },
    {
        self.clear(tree, false);
        let ghost mid = *tree;
        self.attach(tree, false, item);
        assert(mid.grown_by(tree, self.position(), false, item));
    }
}

} // verus!
