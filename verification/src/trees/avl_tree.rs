//! An AVL tree: a binary search tree in which the heights of the two subtrees
//! of every node differ by at most one.
use vstd::prelude::*;
use crate::order::{lt, total_order, group_order, compare, Rank};
use crate::trees::{targets, strictly_ascending};

verus! {

/// A set of values of type `T`, kept in a height-balanced search tree.
#[derive(Debug)]
pub struct AVLTree<T> {
    root: Option<Box<TreeNode<T>>>,
}

#[derive(Debug)]
struct TreeNode<T> {
    value: T,
    /// The height of the tree below this node, a leaf having height 1.
    height: i32,
    left: Option<Box<TreeNode<T>>>,
    right: Option<Box<TreeNode<T>>>,
}

/// The values in the tree below `node`.
spec fn elems<T>(node: Option<Box<TreeNode<T>>>) -> Set<T>
    decreases node,
{
    match node {
        None => Set::empty(),
        Some(n) => elems(n.left).union(elems(n.right)).insert(n.value),
    }
}

/// Search order: at every node the values to the left are ordered before the
/// node's value, and those to the right after it.
spec fn ordered<T: Ord>(node: Option<Box<TreeNode<T>>>) -> bool
    decreases node,
{
    match node {
        None => true,
        Some(n) => {
            &&& ordered(n.left)
            &&& ordered(n.right)
            &&& forall|x: T| #[trigger] elems(n.left).contains(x) ==> lt(x, n.value)
            &&& forall|x: T| #[trigger] elems(n.right).contains(x) ==> lt(n.value, x)
        },
    }
}

/// The values below `node` from left to right.
spec fn flat<T>(node: Option<Box<TreeNode<T>>>) -> Seq<T>
    decreases node,
{
    match node {
        None => Seq::empty(),
        Some(n) => flat(n.left).push(n.value) + flat(n.right),
    }
}

/// The larger of two numbers.
spec fn larger(a: nat, b: nat) -> nat {
    if a >= b {
        a
    } else {
        b
    }
}

/// The number of nodes on the longest way down from `node`.
spec fn tall<T>(node: Option<Box<TreeNode<T>>>) -> nat
    decreases node,
{
    match node {
        None => 0,
        Some(n) => 1 + larger(tall(n.left), tall(n.right)),
    }
}

/// Every node records the height of the tree below it.
spec fn heights_ok<T>(node: Option<Box<TreeNode<T>>>) -> bool
    decreases node,
{
    match node {
        None => true,
        Some(n) => heights_ok(n.left) && heights_ok(n.right) && n.height == tall(node),
    }
}

/// At every node the heights of the two subtrees differ by at most one.
spec fn balanced<T>(node: Option<Box<TreeNode<T>>>) -> bool
    decreases node,
{
    match node {
        None => true,
        Some(n) => balanced(n.left) && balanced(n.right) && tall(n.left) <= tall(n.right) + 1
            && tall(n.right) <= tall(n.left) + 1,
    }
}

/// Read from left to right, a tree in search order gives its values in
/// strictly ascending order, each once.
proof fn lemma_flat<T: Ord>(node: Option<Box<TreeNode<T>>>)
    requires
        total_order::<T>(),
        ordered(node),
    ensures
        strictly_ascending(flat(node)),
        forall|x: T| elems(node).contains(x) <==> flat(node).contains(x),
    decreases node,
{
    broadcast use group_order;
    match node {
        None => {},
        Some(n) => {
            lemma_flat(n.left);
            lemma_flat(n.right);
            let l = flat(n.left);
            let r = flat(n.right);
            let s = flat(node);
            assert(s == l.push(n.value) + r);
            assert forall|x: T| elems(node).contains(x) <==> s.contains(x) by {
                if elems(node).contains(x) {
                    if x == n.value {
                        assert(s[l.len() as int] == x);
                    } else if elems(n.left).contains(x) {
                        assert(l.contains(x));
                        let i = choose|i: int| 0 <= i < l.len() && l[i] == x;
                        assert(s[i] == x);
                    } else {
                        assert(elems(n.right).contains(x));
                        assert(r.contains(x));
                        let i = choose|i: int| 0 <= i < r.len() && r[i] == x;
                        assert(s[l.len() + 1 + i] == x);
                    }
                }
                if s.contains(x) {
                    let i = choose|i: int| 0 <= i < s.len() && s[i] == x;
                    if i < l.len() {
                        assert(l[i] == x);
                        assert(l.contains(x));
                    } else if i > l.len() {
                        assert(r[i - l.len() - 1] == x);
                        assert(r.contains(x));
                    }
                }
            }
            assert forall|i: int, j: int| 0 <= i < j < s.len() implies lt(s[i], s[j]) by {
                if i < l.len() {
                    assert(l.contains(l[i]));
                    assert(elems(n.left).contains(s[i]));
                } else if i > l.len() {
                    assert(r.contains(r[i - l.len() - 1]));
                    assert(elems(n.right).contains(s[i]));
                }
                if j < l.len() {
                    assert(l.contains(l[j]));
                    assert(elems(n.left).contains(s[j]));
                } else if j > l.len() {
                    assert(r.contains(r[j - l.len() - 1]));
                    assert(elems(n.right).contains(s[j]));
                }
            }
        },
    }
}

/// The tree below `b` has the shape of the tree below `a`, and each of its
/// values is a clone of the value in its place.
spec fn copied<T: Clone>(a: Option<Box<TreeNode<T>>>, b: Option<Box<TreeNode<T>>>) -> bool
    decreases a,
{
    match a {
        None => b is None,
        Some(x) => b is Some && cloned(x.value, b.unwrap().value) && x.height
            == b.unwrap().height && copied(
            x.left,
            b.unwrap().left,
        ) && copied(x.right, b.unwrap().right),
    }
}

/// Where a clone of a value is always that value, a copy of a tree is that
/// tree.
proof fn lemma_copied_same<T: Clone>(a: Option<Box<TreeNode<T>>>, b: Option<Box<TreeNode<T>>>)
    requires
        copied(a, b),
        forall|x: T, y: T| #[trigger] cloned(x, y) ==> x == y,
    ensures
        a == b,
    decreases a,
{
    match a {
        None => {},
        Some(x) => {
            lemma_copied_same(x.left, b.unwrap().left);
            lemma_copied_same(x.right, b.unwrap().right);
        },
    }
}

/// A copy of the tree below `node`.
fn copy_node<T: Clone>(node: &Option<Box<TreeNode<T>>>) -> (res: Option<Box<TreeNode<T>>>)
    ensures
        copied(*node, res),
    decreases *node,
{
    match node {
        Some(n) => Some(
            Box::new(
                TreeNode {
                    value: n.value.clone(),
                    height: n.height,
                    left: copy_node(&n.left),
                    right: copy_node(&n.right),
                },
            ),
        ),
        None => None,
    }
}

impl<T: Clone> AVLTree<T> {
    /// This tree has the shape of `other`, and each of its values is a clone
    /// of the value in its place in `other`.
    pub closed spec fn copy_of(&self, other: &Self) -> bool {
        copied(other.root, self.root)
    }

    /// Where a clone of a value is always that value, a copy of a tree is
    /// that tree.
    pub proof fn lemma_copy_same(&self, other: &Self)
        requires
            self.copy_of(other),
            forall|x: T, y: T| #[trigger] cloned(x, y) ==> x == y,
        ensures
            *self == *other,
    {
        lemma_copied_same(other.root, self.root);
    }
}

impl<T: Clone> Clone for AVLTree<T> {
    /// A copy of the tree.
    fn clone(&self) -> (res: Self)
        ensures
            res.copy_of(self),
    {
        AVLTree { root: copy_node(&self.root) }
    }
}

impl<T> View for AVLTree<T> {
    type V = Set<T>;

    /// The set of values held.
    closed spec fn view(&self) -> Set<T> {
        elems(self.root)
    }
}

impl<T: Ord> AVLTree<T> {
    /// The representation invariant: search order, recorded heights that are
    /// the true ones, and balance at every node.
    pub closed spec fn wf(&self) -> bool {
        ordered(self.root) && heights_ok(self.root) && balanced(self.root)
    }

    /// The height of the tree: the number of nodes on the longest way down
    /// from the root.
    pub closed spec fn spec_height(&self) -> nat {
        tall(self.root)
    }

    /// An empty tree.
    pub fn new() -> (tree: Self)
        ensures
            tree.wf(),
            tree@ == Set::<T>::empty(),
            tree.spec_height() == 0,
    {
        AVLTree { root: None }
    }

    /// Adds `value` to the set; a value that is already there stays as it is.
    /// The tree grows by one level at most.
    pub fn insert(&mut self, value: T)
        requires
            total_order::<T>(),
            old(self).wf(),
            old(self).spec_height() < i32::MAX,
        ensures
            final(self).wf(),
            final(self)@ == old(self)@.insert(value),
            old(self).spec_height() <= final(self).spec_height() <= old(self).spec_height() + 1,
    {
        let root = self.root.take();
        self.root = Self::insert_node(root, value);
    }

    /// The tree below `node` with `value` added to it.
    fn insert_node(node: Option<Box<TreeNode<T>>>, value: T) -> (r: Option<Box<TreeNode<T>>>)
        requires
            total_order::<T>(),
            ordered(node),
            heights_ok(node),
            balanced(node),
            tall(node) < i32::MAX,
        ensures
            ordered(r),
            heights_ok(r),
            balanced(r),
            elems(r) == elems(node).insert(value),
            tall(node) <= tall(r) <= tall(node) + 1,
        decreases node,
    {
        let mut n = match node {
            Some(n) => n,
            None => {
                let r = Some(Box::new(TreeNode { value, height: 1, left: None, right: None }));
                proof {
                    assert(elems(r) =~= elems(node).insert(value));
                }
                return r;
            },
        };
        match compare(&value, &n.value) {
            Rank::Before => {
                let l = n.left.take();
                n.left = Self::insert_node(l, value);
            },
            Rank::After => {
                let r = n.right.take();
                n.right = Self::insert_node(r, value);
            },
            Rank::Same => {
                proof {
                    assert(elems(Some(n)) =~= elems(node).insert(value));
                }
                return Some(n);
            },
        }
        proof {
            assert(elems(Some(n)) =~= elems(node).insert(value));
        }
        let hl = Self::height(&n.left);
        let hr = Self::height(&n.right);
        n.height = 1 + (if hl >= hr { hl } else { hr });
        Some(Self::balance(n))
    }

    /// The height recorded for the tree below `node`.
    fn height(node: &Option<Box<TreeNode<T>>>) -> (h: i32)
        requires
            heights_ok(*node),
        ensures
            h == tall(*node),
    {
        match node {
            Some(n) => n.height,
            None => 0,
        }
    }

    /// By how much the left subtree of `node` is higher than the right one.
    fn balance_factor(node: &Option<Box<TreeNode<T>>>) -> (f: i32)
        requires
            *node is Some,
            heights_ok(node.unwrap().left),
            heights_ok(node.unwrap().right),
        ensures
            f == tall(node.unwrap().left) - tall(node.unwrap().right),
    {
        match node {
            Some(n) => Self::height(&n.left) - Self::height(&n.right),
            None => 0,
        }
    }

    /// Restores balance at a node whose subtrees are balanced and differ in
    /// height by two at most.
    fn balance(node: Box<TreeNode<T>>) -> (r: Box<TreeNode<T>>)
        requires
            total_order::<T>(),
            ordered(Some(node)),
            heights_ok(Some(node)),
            balanced(node.left),
            balanced(node.right),
            tall(node.left) <= tall(node.right) + 2,
            tall(node.right) <= tall(node.left) + 2,
        ensures
            ordered(Some(r)),
            heights_ok(Some(r)),
            balanced(Some(r)),
            elems(Some(r)) == elems(Some(node)),
            tall(Some(r)) <= tall(Some(node)) <= tall(Some(r)) + 1,
            balanced(Some(node)) ==> tall(Some(r)) == tall(Some(node)),
    {
        let ghost t0 = Some(node);
        let ghost n0 = *node;
        let mut node = node;
        proof {
            assert(heights_ok(t0));
            assert(ordered(t0));
            assert(tall(t0) == 1 + larger(tall(n0.left), tall(n0.right)));
        }
        let balance_factor = Self::height(&node.left) - Self::height(&node.right);
        if balance_factor > 1 {
            proof {
                assert(n0.left is Some);
                assert(heights_ok(n0.left));
                assert(balanced(n0.left));
                assert(ordered(n0.left));
                assert(tall(n0.left) == 1 + larger(
                    tall(n0.left.unwrap().left),
                    tall(n0.left.unwrap().right),
                ));
            }
            if Self::balance_factor(&node.left) < 0 {
                let l = node.left.take().unwrap();
                let ghost l0 = *l;
                proof {
                    assert(l0.right is Some);
                    assert(heights_ok(l0.right));
                    assert(balanced(l0.right));
                    assert(tall(l0.right) == 1 + larger(
                        tall(l0.right.unwrap().left),
                        tall(l0.right.unwrap().right),
                    ));
                }
                let l2 = Self::rotate_left(l);
                proof {
                    assert(heights_ok(l2.left));
                    assert(tall(l2.left) == 1 + larger(tall(l0.left), tall(l0.right.unwrap().left)));
                    assert(tall(Some(l2)) == 1 + larger(tall(l2.left), tall(l2.right)));
                    assert(balanced(l2.left));
                    assert(balanced(l2.right));
                }
                node.left = Some(l2);
                proof {
                    assert(elems(Some(node)) =~= elems(t0));
                    assert(ordered(Some(node)));
                    assert(tall(Some(node)) == 1 + larger(tall(node.left), tall(node.right)));
                }
            }
            let ghost n1 = *node;
            let ghost l1 = *n1.left.unwrap();
            proof {
                assert(tall(n1.left) == 1 + larger(tall(l1.left), tall(l1.right)));
                assert(balanced(l1.left));
                assert(balanced(l1.right));
                assert(tall(Some(node)) == 1 + larger(tall(n1.left), tall(n1.right)));
            }
            let r = Self::rotate_right(node);
            proof {
                assert(tall(r.right) == 1 + larger(tall(l1.right), tall(n1.right)));
                assert(tall(Some(r)) == 1 + larger(tall(r.left), tall(r.right)));
                assert(balanced(r.right));
                assert(balanced(Some(r)));
            }
            return r;
        }
        if balance_factor < -1 {
            proof {
                assert(n0.right is Some);
                assert(heights_ok(n0.right));
                assert(balanced(n0.right));
                assert(ordered(n0.right));
                assert(tall(n0.right) == 1 + larger(
                    tall(n0.right.unwrap().left),
                    tall(n0.right.unwrap().right),
                ));
            }
            if Self::balance_factor(&node.right) > 0 {
                let rt = node.right.take().unwrap();
                let ghost r0 = *rt;
                proof {
                    assert(r0.left is Some);
                    assert(heights_ok(r0.left));
                    assert(balanced(r0.left));
                    assert(tall(r0.left) == 1 + larger(
                        tall(r0.left.unwrap().left),
                        tall(r0.left.unwrap().right),
                    ));
                }
                let r2 = Self::rotate_right(rt);
                proof {
                    assert(heights_ok(r2.right));
                    assert(tall(r2.right) == 1 + larger(tall(r0.left.unwrap().right), tall(r0.right)));
                    assert(tall(Some(r2)) == 1 + larger(tall(r2.left), tall(r2.right)));
                    assert(balanced(r2.left));
                    assert(balanced(r2.right));
                }
                node.right = Some(r2);
                proof {
                    assert(elems(Some(node)) =~= elems(t0));
                    assert(ordered(Some(node)));
                    assert(tall(Some(node)) == 1 + larger(tall(node.left), tall(node.right)));
                }
            }
            let ghost n1 = *node;
            let ghost r1 = *n1.right.unwrap();
            proof {
                assert(tall(n1.right) == 1 + larger(tall(r1.left), tall(r1.right)));
                assert(balanced(r1.left));
                assert(balanced(r1.right));
                assert(tall(Some(node)) == 1 + larger(tall(n1.left), tall(n1.right)));
            }
            let r = Self::rotate_left(node);
            proof {
                assert(tall(r.left) == 1 + larger(tall(n1.left), tall(r1.left)));
                assert(tall(Some(r)) == 1 + larger(tall(r.left), tall(r.right)));
                assert(balanced(r.left));
                assert(balanced(Some(r)));
            }
            return r;
        }
        node
    }

    /// Turns the tree at `y` to the right: the left child of `y` comes to
    /// stand above `y`.
    fn rotate_right(y: Box<TreeNode<T>>) -> (r: Box<TreeNode<T>>)
        requires
            total_order::<T>(),
            y.left is Some,
            ordered(Some(y)),
            heights_ok(y.left),
            heights_ok(y.right),
            1 + larger(
                tall(y.left.unwrap().left),
                1 + larger(tall(y.left.unwrap().right), tall(y.right)),
            ) <= i32::MAX,
        ensures
            ordered(Some(r)),
            heights_ok(Some(r)),
            elems(Some(r)) == elems(Some(y)),
            r.value == y.left.unwrap().value,
            r.left == y.left.unwrap().left,
            r.right is Some,
            r.right.unwrap().value == y.value,
            r.right.unwrap().left == y.left.unwrap().right,
            r.right.unwrap().right == y.right,
    {
        let ghost t0 = Some(y);
        let ghost y0 = *y;
        let mut y = y;
        proof {
            assert(ordered(t0));
            assert(ordered(y0.left));
            assert(ordered(y0.right));
            assert(heights_ok(y0.left));
        }
        let mut x = y.left.take().unwrap();
        let ghost x0 = *x;
        proof {
            assert(y0.left == Some(x));
            assert(ordered(x0.left));
            assert(ordered(x0.right));
            assert(heights_ok(x0.left));
            assert(heights_ok(x0.right));
            assert(elems(y0.left).contains(x0.value));
            assert(elems(y0.left) =~= elems(x0.left).union(elems(x0.right)).insert(x0.value));
            assert(tall(y0.left) == 1 + larger(tall(x0.left), tall(x0.right)));
            assert(tall(t0) == 1 + larger(tall(y0.left), tall(y0.right)));
        }
        y.left = x.right.take();
        let hl = Self::height(&y.left);
        let hr = Self::height(&y.right);
        y.height = 1 + (if hl >= hr { hl } else { hr });
        proof {
            broadcast use group_order;
            assert forall|v: T| #[trigger] elems(y.left).contains(v) implies lt(v, y.value) by {
                assert(elems(y0.left).contains(v));
            }
            assert forall|v: T| #[trigger] elems(y.right).contains(v) implies lt(y.value, v) by {
                assert(elems(y0.right).contains(v));
            }
            assert(ordered(Some(y)));
            assert(heights_ok(Some(y)));
            assert(elems(Some(y)) =~= elems(x0.right).union(elems(y0.right)).insert(y0.value));
            assert(elems(t0) =~= elems(y0.left).union(elems(y0.right)).insert(y0.value));
        }
        let ghost turned = Some(y);
        x.right = Some(y);
        let hl2 = Self::height(&x.left);
        let hr2 = Self::height(&x.right);
        x.height = 1 + (if hl2 >= hr2 { hl2 } else { hr2 });
        proof {
            broadcast use group_order;
            assert(lt(x0.value, y0.value));
            assert forall|v: T| #[trigger] elems(x.right).contains(v) implies lt(x.value, v) by {
                if elems(y0.right).contains(v) {
                    assert(lt(y0.value, v));
                } else if v != y0.value {
                    assert(elems(x0.right).contains(v));
                }
            }
            assert forall|v: T| #[trigger] elems(x.left).contains(v) implies lt(v, x.value) by {
                assert(elems(x0.left).contains(v));
            }
            assert(ordered(Some(x)));
            assert(heights_ok(Some(x)));
            assert(x.right == turned);
            assert(elems(Some(x)) =~= elems(x0.left).union(elems(turned)).insert(x0.value));
            assert(elems(Some(x)) =~= elems(t0));
        }
        x
    }

    /// Turns the tree at `x` to the left: the right child of `x` comes to
    /// stand above `x`.
    fn rotate_left(x: Box<TreeNode<T>>) -> (r: Box<TreeNode<T>>)
        requires
            total_order::<T>(),
            x.right is Some,
            ordered(Some(x)),
            heights_ok(x.left),
            heights_ok(x.right),
            1 + larger(
                1 + larger(tall(x.left), tall(x.right.unwrap().left)),
                tall(x.right.unwrap().right),
            ) <= i32::MAX,
        ensures
            ordered(Some(r)),
            heights_ok(Some(r)),
            elems(Some(r)) == elems(Some(x)),
            r.value == x.right.unwrap().value,
            r.right == x.right.unwrap().right,
            r.left is Some,
            r.left.unwrap().value == x.value,
            r.left.unwrap().right == x.right.unwrap().left,
            r.left.unwrap().left == x.left,
    {
        let ghost t0 = Some(x);
        let ghost x0 = *x;
        let mut x = x;
        proof {
            assert(ordered(t0));
            assert(ordered(x0.left));
            assert(ordered(x0.right));
            assert(heights_ok(x0.right));
        }
        let mut y = x.right.take().unwrap();
        let ghost y0 = *y;
        proof {
            assert(x0.right == Some(y));
            assert(ordered(y0.left));
            assert(ordered(y0.right));
            assert(heights_ok(y0.left));
            assert(heights_ok(y0.right));
            assert(elems(x0.right).contains(y0.value));
            assert(elems(x0.right) =~= elems(y0.left).union(elems(y0.right)).insert(y0.value));
            assert(tall(x0.right) == 1 + larger(tall(y0.left), tall(y0.right)));
            assert(tall(t0) == 1 + larger(tall(x0.left), tall(x0.right)));
        }
        x.right = y.left.take();
        let hl = Self::height(&x.left);
        let hr = Self::height(&x.right);
        x.height = 1 + (if hl >= hr { hl } else { hr });
        proof {
            broadcast use group_order;
            assert forall|v: T| #[trigger] elems(x.right).contains(v) implies lt(x.value, v) by {
                assert(elems(x0.right).contains(v));
            }
            assert forall|v: T| #[trigger] elems(x.left).contains(v) implies lt(v, x.value) by {
                assert(elems(x0.left).contains(v));
            }
            assert(ordered(Some(x)));
            assert(heights_ok(Some(x)));
            assert(elems(Some(x)) =~= elems(x0.left).union(elems(y0.left)).insert(x0.value));
            assert(elems(t0) =~= elems(x0.left).union(elems(x0.right)).insert(x0.value));
        }
        let ghost turned = Some(x);
        y.left = Some(x);
        let hl2 = Self::height(&y.left);
        let hr2 = Self::height(&y.right);
        y.height = 1 + (if hl2 >= hr2 { hl2 } else { hr2 });
        proof {
            broadcast use group_order;
            assert(lt(x0.value, y0.value));
            assert forall|v: T| #[trigger] elems(y.left).contains(v) implies lt(v, y.value) by {
                if elems(x0.left).contains(v) {
                    assert(lt(v, x0.value));
                } else if v != x0.value {
                    assert(elems(y0.left).contains(v));
                }
            }
            assert forall|v: T| #[trigger] elems(y.right).contains(v) implies lt(y.value, v) by {
                assert(elems(y0.right).contains(v));
            }
            assert(ordered(Some(y)));
            assert(heights_ok(Some(y)));
            assert(y.left == turned);
            assert(elems(Some(y)) =~= elems(turned).union(elems(y0.right)).insert(y0.value));
            assert(elems(Some(y)) =~= elems(t0));
        }
        y
    }

    /// Whether `value` is in the set.
    pub fn contains(&self, value: &T) -> (r: bool)
        requires
            total_order::<T>(),
            self.wf(),
        ensures
            r == self@.contains(*value),
    {
        Self::contains_node(&self.root, value)
    }

    /// Whether `value` is in the tree below `node`.
    fn contains_node(node: &Option<Box<TreeNode<T>>>, value: &T) -> (r: bool)
        requires
            total_order::<T>(),
            ordered(*node),
        ensures
            r == elems(*node).contains(*value),
        decreases *node,
    {
        match node {
            Some(n) => {
                proof {
                    broadcast use group_order;
                    if elems(n.right).contains(*value) {
                        assert(lt(n.value, *value));
                    }
                    if elems(n.left).contains(*value) {
                        assert(lt(*value, n.value));
                    }
                }
                match compare(value, &n.value) {
                    Rank::Before => Self::contains_node(&n.left, value),
                    Rank::After => Self::contains_node(&n.right, value),
                    Rank::Same => true,
                }
            },
            None => false,
        }
    }

    /// The values of the set in ascending order.
    pub fn in_order_traversal(&self) -> (r: Vec<&T>)
        requires
            total_order::<T>(),
            self.wf(),
        ensures
            strictly_ascending(targets(r@)),
            forall|x: T| self@.contains(x) <==> targets(r@).contains(x),
    {
        let mut result = Vec::new();
        Self::in_order(&self.root, &mut result);
        proof {
            lemma_flat(self.root);
            assert(targets(result@) =~= flat(self.root));
        }
        result
    }

    /// Adds the values below `node` to `result`, from left to right.
    fn in_order<'a>(node: &'a Option<Box<TreeNode<T>>>, result: &mut Vec<&'a T>)
        ensures
            targets(final(result)@) == targets(old(result)@) + flat(*node),
        decreases *node,
    {
        if let Some(n) = node {
            Self::in_order(&n.left, result);
            let ghost mid = result@;
            result.push(&n.value);
            let ghost mid2 = result@;
            Self::in_order(&n.right, result);
            proof {
                assert(targets(mid2) =~= targets(mid).push(n.value));
                assert(targets(result@) =~= targets(old(result)@) + flat(*node));
            }
        } else {
            proof {
                assert(targets(result@) =~= targets(old(result)@) + flat(*node));
            }
        }
    }
}

} // verus!
