//! An unbalanced binary search tree that holds a set of values.
use vstd::prelude::*;
use crate::order::{lt, total_order, group_order, compare, Rank};
use crate::trees::{targets, strictly_ascending};

verus! {

/// A set of values of type `T`, kept in a binary search tree.
#[derive(Debug)]
pub struct BinarySearchTree<T> {
    root: Option<Box<TreeNode<T>>>,
}

#[derive(Debug)]
struct TreeNode<T> {
    value: T,
    left: Option<Box<TreeNode<T>>>,
    right: Option<Box<TreeNode<T>>>,
}

/// The values in the tree below `node`.
spec fn elems<T>(node: Option<Box<TreeNode<T>>>) -> Set<T>
    decreases node,
{
    match node {
        None => Set::empty(),
        Some(n) => elems(n.left).union(elems(n.right)).insert(n.value),
    }
}

/// Search order: at every node the values to the left are ordered before the
/// node's value, and those to the right after it.
spec fn ordered<T: Ord>(node: Option<Box<TreeNode<T>>>) -> bool
    decreases node,
{
    match node {
        None => true,
        Some(n) => {
            &&& ordered(n.left)
            &&& ordered(n.right)
            &&& forall|x: T| #[trigger] elems(n.left).contains(x) ==> lt(x, n.value)
            &&& forall|x: T| #[trigger] elems(n.right).contains(x) ==> lt(n.value, x)
        },
    }
}

/// The values below `node` from left to right.
spec fn flat<T>(node: Option<Box<TreeNode<T>>>) -> Seq<T>
    decreases node,
{
    match node {
        None => Seq::empty(),
        Some(n) => flat(n.left).push(n.value) + flat(n.right),
    }
}

/// Read from left to right, a tree in search order gives its values in
/// strictly ascending order, each once.
proof fn lemma_flat<T: Ord>(node: Option<Box<TreeNode<T>>>)
    requires
        total_order::<T>(),
        ordered(node),
    ensures
        strictly_ascending(flat(node)),
        forall|x: T| elems(node).contains(x) <==> flat(node).contains(x),
    decreases node,
{
    broadcast use group_order;
    match node {
        None => {},
        Some(n) => {
            lemma_flat(n.left);
            lemma_flat(n.right);
            let l = flat(n.left);
            let r = flat(n.right);
            let s = flat(node);
            assert(s == l.push(n.value) + r);
            assert forall|x: T| elems(node).contains(x) <==> s.contains(x) by {
                if elems(node).contains(x) {
                    if x == n.value {
                        assert(s[l.len() as int] == x);
                    } else if elems(n.left).contains(x) {
                        assert(l.contains(x));
                        let i = choose|i: int| 0 <= i < l.len() && l[i] == x;
                        assert(s[i] == x);
                    } else {
                        assert(elems(n.right).contains(x));
                        assert(r.contains(x));
                        let i = choose|i: int| 0 <= i < r.len() && r[i] == x;
                        assert(s[l.len() + 1 + i] == x);
                    }
                }
                if s.contains(x) {
                    let i = choose|i: int| 0 <= i < s.len() && s[i] == x;
                    if i < l.len() {
                        assert(l[i] == x);
                        assert(l.contains(x));
                    } else if i > l.len() {
                        assert(r[i - l.len() - 1] == x);
                        assert(r.contains(x));
                    }
                }
            }
            assert forall|i: int, j: int| 0 <= i < j < s.len() implies lt(s[i], s[j]) by {
                if i < l.len() {
                    assert(l.contains(l[i]));
                    assert(elems(n.left).contains(s[i]));
                } else if i > l.len() {
                    assert(r.contains(r[i - l.len() - 1]));
                    assert(elems(n.right).contains(s[i]));
                }
                if j < l.len() {
                    assert(l.contains(l[j]));
                    assert(elems(n.left).contains(s[j]));
                } else if j > l.len() {
                    assert(r.contains(r[j - l.len() - 1]));
                    assert(elems(n.right).contains(s[j]));
                }
            }
        },
    }
}

/// The tree below `b` has the shape of the tree below `a`, and each of its
/// values is a clone of the value in its place.
spec fn copied<T: Clone>(a: Option<Box<TreeNode<T>>>, b: Option<Box<TreeNode<T>>>) -> bool
    decreases a,
{
    match a {
        None => b is None,
        Some(x) => b is Some && cloned(x.value, b.unwrap().value) && copied(
            x.left,
            b.unwrap().left,
        ) && copied(x.right, b.unwrap().right),
    }
}

/// Where a clone of a value is always that value, a copy of a tree is that
/// tree.
proof fn lemma_copied_same<T: Clone>(a: Option<Box<TreeNode<T>>>, b: Option<Box<TreeNode<T>>>)
    requires
        copied(a, b),
        forall|x: T, y: T| #[trigger] cloned(x, y) ==> x == y,
    ensures
        a == b,
    decreases a,
{
    match a {
        None => {},
        Some(x) => {
            lemma_copied_same(x.left, b.unwrap().left);
            lemma_copied_same(x.right, b.unwrap().right);
        },
    }
}

/// A copy of the tree below `node`.
fn copy_node<T: Clone>(node: &Option<Box<TreeNode<T>>>) -> (res: Option<Box<TreeNode<T>>>)
    ensures
        copied(*node, res),
    decreases *node,
{
    match node {
        Some(n) => Some(
            Box::new(
                TreeNode {
                    value: n.value.clone(),
                    left: copy_node(&n.left),
                    right: copy_node(&n.right),
                },
            ),
        ),
        None => None,
    }
}

impl<T: Clone> BinarySearchTree<T> {
    /// This tree has the shape of `other`, and each of its values is a clone
    /// of the value in its place in `other`.
    pub closed spec fn copy_of(&self, other: &Self) -> bool {
        copied(other.root, self.root)
    }

    /// Where a clone of a value is always that value, a copy of a tree is
    /// that tree.
    pub proof fn lemma_copy_same(&self, other: &Self)
        requires
            self.copy_of(other),
            forall|x: T, y: T| #[trigger] cloned(x, y) ==> x == y,
        ensures
            *self == *other,
    {
        lemma_copied_same(other.root, self.root);
    }
}

impl<T: Clone> Clone for BinarySearchTree<T> {
    /// A copy of the tree.
    fn clone(&self) -> (res: Self)
        ensures
            res.copy_of(self),
    {
        BinarySearchTree { root: copy_node(&self.root) }
    }
}

impl<T> View for BinarySearchTree<T> {
    type V = Set<T>;

    /// The set of values held.
    closed spec fn view(&self) -> Set<T> {
        elems(self.root)
    }
}

impl<T: Ord> BinarySearchTree<T> {
    /// The representation invariant: the tree is in search order.
    pub closed spec fn wf(&self) -> bool {
        ordered(self.root)
    }

    /// An empty tree.
    pub fn new() -> (tree: Self)
        ensures
            tree.wf(),
            tree@ == Set::<T>::empty(),
    {
        BinarySearchTree { root: None }
    }

    /// Adds `value` to the set; a value that is already there stays as it is.
    pub fn insert(&mut self, value: T)
        requires
            total_order::<T>(),
            old(self).wf(),
        ensures
            final(self).wf(),
            final(self)@ == old(self)@.insert(value),
    {
        let root = self.root.take();
        self.root = Self::insert_node(root, value);
    }

    /// The tree below `node` with `value` added to it.
    fn insert_node(node: Option<Box<TreeNode<T>>>, value: T) -> (r: Option<Box<TreeNode<T>>>)
        requires
            total_order::<T>(),
            ordered(node),
        ensures
            ordered(r),
            elems(r) == elems(node).insert(value),
        decreases node,
    {
        match node {
            Some(mut n) => {
                match compare(&value, &n.value) {
                    Rank::Before => {
                        let l = n.left.take();
                        n.left = Self::insert_node(l, value);
                        proof {
                            assert(elems(Some(n)) =~= elems(node).insert(value));
                        }
                    },
                    Rank::After => {
                        let r = n.right.take();
                        n.right = Self::insert_node(r, value);
                        proof {
                            assert(elems(Some(n)) =~= elems(node).insert(value));
                        }
                    },
                    Rank::Same => {
                        proof {
                            assert(elems(Some(n)) =~= elems(node).insert(value));
                        }
                    },
                }
                Some(n)
            },
            None => {
                let r = Some(Box::new(TreeNode { value, left: None, right: None }));
                proof {
                    assert(elems(r) =~= elems(node).insert(value));
                }
                r
            },
        }
    }

    /// Whether `value` is in the set.
    pub fn contains(&self, value: &T) -> (r: bool)
        requires
            total_order::<T>(),
            self.wf(),
        ensures
            r == self@.contains(*value),
    {
        Self::contains_node(&self.root, value)
    }

    /// Whether `value` is in the tree below `node`.
    fn contains_node(node: &Option<Box<TreeNode<T>>>, value: &T) -> (r: bool)
        requires
            total_order::<T>(),
            ordered(*node),
        ensures
            r == elems(*node).contains(*value),
        decreases *node,
    {
        match node {
            Some(n) => {
                proof {
                    broadcast use group_order;
                    if elems(n.right).contains(*value) {
                        assert(lt(n.value, *value));
                    }
                    if elems(n.left).contains(*value) {
                        assert(lt(*value, n.value));
                    }
                }
                match compare(value, &n.value) {
                    Rank::Before => Self::contains_node(&n.left, value),
                    Rank::After => Self::contains_node(&n.right, value),
                    Rank::Same => true,
                }
            },
            None => false,
        }
    }

    /// The values of the set in ascending order.
    pub fn in_order_traversal(&self) -> (r: Vec<&T>)
        requires
            total_order::<T>(),
            self.wf(),
        ensures
            strictly_ascending(targets(r@)),
            forall|x: T| self@.contains(x) <==> targets(r@).contains(x),
    {
        let mut result = Vec::new();
        Self::in_order(&self.root, &mut result);
        proof {
            lemma_flat(self.root);
            assert(targets(result@) =~= flat(self.root));
        }
        result
    }

    /// Adds the values below `node` to `result`, from left to right.
    fn in_order<'a>(node: &'a Option<Box<TreeNode<T>>>, result: &mut Vec<&'a T>)
        ensures
            targets(final(result)@) == targets(old(result)@) + flat(*node),
        decreases *node,
    {
        if let Some(n) = node {
            Self::in_order(&n.left, result);
            let ghost mid = result@;
            result.push(&n.value);
            let ghost mid2 = result@;
            Self::in_order(&n.right, result);
            proof {
                assert(targets(mid2) =~= targets(mid).push(n.value));
                assert(targets(result@) =~= targets(old(result)@) + flat(*node));
            }
        } else {
            proof {
                assert(targets(result@) =~= targets(old(result)@) + flat(*node));
            }
        }
    }
}

} // verus!
