//! A left-leaning red-black tree: a binary search tree whose nodes are
//! coloured, and which restores its colour rules on the way back up from an
//! insertion by rotations and colour flips.
use vstd::prelude::*;
use crate::order::{lt, total_order, group_order, compare, Rank};
use crate::trees::{targets, strictly_ascending};

verus! {

/// A set of values of type `T`, kept in a red-black search tree.
#[derive(Debug)]
pub struct RedBlackTree<T> {
    root: Option<Box<TreeNode<T>>>,
}

#[derive(Debug)]
struct TreeNode<T> {
    value: T,
    color: Color,
    left: Option<Box<TreeNode<T>>>,
    right: Option<Box<TreeNode<T>>>,
}

#[derive(Debug, Clone, Copy)]
enum Color {
    Red,
    Black,
}

/// The values in the tree below `node`.
spec fn elems<T>(node: Option<Box<TreeNode<T>>>) -> Set<T>
    decreases node,
{
    match node {
        None => Set::empty(),
        Some(n) => elems(n.left).union(elems(n.right)).insert(n.value),
    }
}

/// Search order: at every node the values to the left are ordered before the
/// node's value, and those to the right after it.
spec fn ordered<T: Ord>(node: Option<Box<TreeNode<T>>>) -> bool
    decreases node,
{
    match node {
        None => true,
        Some(n) => {
            &&& ordered(n.left)
            &&& ordered(n.right)
            &&& forall|x: T| #[trigger] elems(n.left).contains(x) ==> lt(x, n.value)
            &&& forall|x: T| #[trigger] elems(n.right).contains(x) ==> lt(n.value, x)
        },
    }
}

/// The values below `node` from left to right.
spec fn flat<T>(node: Option<Box<TreeNode<T>>>) -> Seq<T>
    decreases node,
{
    match node {
        None => Seq::empty(),
        Some(n) => flat(n.left).push(n.value) + flat(n.right),
    }
}

/// Whether `node` is a red node; the empty tree counts as black.
spec fn red<T>(node: Option<Box<TreeNode<T>>>) -> bool {
    match node {
        None => false,
        Some(n) => n.color is Red,
    }
}

/// The number of black nodes on the way down the left edge of the tree; where
/// the tree is balanced, every way down meets as many.
spec fn black_height<T>(node: Option<Box<TreeNode<T>>>) -> nat
    decreases node,
{
    match node {
        None => 0,
        Some(n) => black_height(n.left) + (if n.color is Black { 1nat } else { 0nat }),
    }
}

/// The colour rules below the root: both subtrees keep the colour rules, the
/// right child is not red, and both subtrees have the same black height.
spec fn near<T>(node: Option<Box<TreeNode<T>>>) -> bool
    decreases node, 0int,
{
    match node {
        None => true,
        Some(n) => {
            &&& colored(n.left)
            &&& colored(n.right)
            &&& !red(n.right)
            &&& black_height(n.left) == black_height(n.right)
        },
    }
}

/// The colour rules of a left-leaning red-black tree: no right child is red,
/// no red node has a red left child, and every way down from a node meets
/// the same number of black nodes.
spec fn colored<T>(node: Option<Box<TreeNode<T>>>) -> bool
    decreases node, 1int,
{
    match node {
        None => true,
        Some(n) => near(node) && !(n.color is Red && red(n.left)),
    }
}

/// What the colour rules say of a tree and of its two subtrees.
proof fn lemma_colors<T>(node: Option<Box<TreeNode<T>>>)
    ensures
        node is None ==> colored(node) && near(node) && black_height(node) == 0 && !red(node),
        node is Some ==> (near(node) <==> colored(node.unwrap().left) && colored(
            node.unwrap().right,
        ) && !red(node.unwrap().right) && black_height(node.unwrap().left) == black_height(
            node.unwrap().right,
        )),
        node is Some ==> (colored(node) <==> near(node) && !(red(node) && red(node.unwrap().left))),
        node is Some ==> black_height(node) == black_height(node.unwrap().left) + (if red(node) {
            0nat
        } else {
            1nat
        }),
{
}

/// Read from left to right, a tree in search order gives its values in
/// strictly ascending order, each once.
proof fn lemma_flat<T: Ord>(node: Option<Box<TreeNode<T>>>)
    requires
        total_order::<T>(),
        ordered(node),
    ensures
        strictly_ascending(flat(node)),
        forall|x: T| elems(node).contains(x) <==> flat(node).contains(x),
    decreases node,
{
    broadcast use group_order;
    match node {
        None => {},
        Some(n) => {
            lemma_flat(n.left);
            lemma_flat(n.right);
            let l = flat(n.left);
            let r = flat(n.right);
            let s = flat(node);
            assert(s == l.push(n.value) + r);
            assert forall|x: T| elems(node).contains(x) <==> s.contains(x) by {
                if elems(node).contains(x) {
                    if x == n.value {
                        assert(s[l.len() as int] == x);
                    } else if elems(n.left).contains(x) {
                        assert(l.contains(x));
                        let i = choose|i: int| 0 <= i < l.len() && l[i] == x;
                        assert(s[i] == x);
                    } else {
                        assert(elems(n.right).contains(x));
                        assert(r.contains(x));
                        let i = choose|i: int| 0 <= i < r.len() && r[i] == x;
                        assert(s[l.len() + 1 + i] == x);
                    }
                }
                if s.contains(x) {
                    let i = choose|i: int| 0 <= i < s.len() && s[i] == x;
                    if i < l.len() {
                        assert(l[i] == x);
                        assert(l.contains(x));
                    } else if i > l.len() {
                        assert(r[i - l.len() - 1] == x);
                        assert(r.contains(x));
                    }
                }
            }
            assert forall|i: int, j: int| 0 <= i < j < s.len() implies lt(s[i], s[j]) by {
                if i < l.len() {
                    assert(l.contains(l[i]));
                    assert(elems(n.left).contains(s[i]));
                } else if i > l.len() {
                    assert(r.contains(r[i - l.len() - 1]));
                    assert(elems(n.right).contains(s[i]));
                }
                if j < l.len() {
                    assert(l.contains(l[j]));
                    assert(elems(n.left).contains(s[j]));
                } else if j > l.len() {
                    assert(r.contains(r[j - l.len() - 1]));
                    assert(elems(n.right).contains(s[j]));
                }
            }
        },
    }
}

/// The tree below `b` has the shape of the tree below `a`, and each of its
/// values is a clone of the value in its place.
spec fn copied<T: Clone>(a: Option<Box<TreeNode<T>>>, b: Option<Box<TreeNode<T>>>) -> bool
    decreases a,
{
    match a {
        None => b is None,
        Some(x) => b is Some && cloned(x.value, b.unwrap().value) && x.color
            == b.unwrap().color && copied(
            x.left,
            b.unwrap().left,
        ) && copied(x.right, b.unwrap().right),
    }
}

/// Where a clone of a value is always that value, a copy of a tree is that
/// tree.
proof fn lemma_copied_same<T: Clone>(a: Option<Box<TreeNode<T>>>, b: Option<Box<TreeNode<T>>>)
    requires
        copied(a, b),
        forall|x: T, y: T| #[trigger] cloned(x, y) ==> x == y,
    ensures
        a == b,
    decreases a,
{
    match a {
        None => {},
        Some(x) => {
            lemma_copied_same(x.left, b.unwrap().left);
            lemma_copied_same(x.right, b.unwrap().right);
        },
    }
}

/// A copy of the tree below `node`.
fn copy_node<T: Clone>(node: &Option<Box<TreeNode<T>>>) -> (res: Option<Box<TreeNode<T>>>)
    ensures
        copied(*node, res),
    decreases *node,
{
    match node {
        Some(n) => Some(
            Box::new(
                TreeNode {
                    value: n.value.clone(),
                    color: n.color,
                    left: copy_node(&n.left),
                    right: copy_node(&n.right),
                },
            ),
        ),
        None => None,
    }
}

impl<T: Clone> RedBlackTree<T> {
    /// This tree has the shape of `other`, and each of its values is a clone
    /// of the value in its place in `other`.
    pub closed spec fn copy_of(&self, other: &Self) -> bool {
        copied(other.root, self.root)
    }

    /// Where a clone of a value is always that value, a copy of a tree is
    /// that tree.
    pub proof fn lemma_copy_same(&self, other: &Self)
        requires
            self.copy_of(other),
            forall|x: T, y: T| #[trigger] cloned(x, y) ==> x == y,
        ensures
            *self == *other,
    {
        lemma_copied_same(other.root, self.root);
    }
}

impl<T: Clone> Clone for RedBlackTree<T> {
    /// A copy of the tree.
    fn clone(&self) -> (res: Self)
        ensures
            res.copy_of(self),
    {
        RedBlackTree { root: copy_node(&self.root) }
    }
}

impl<T> View for RedBlackTree<T> {
    type V = Set<T>;

    /// The set of values held.
    closed spec fn view(&self) -> Set<T> {
        elems(self.root)
    }
}

impl<T: Ord> RedBlackTree<T> {
    /// The representation invariant: search order, the colour rules of a
    /// left-leaning red-black tree, and a root that is not red.
    pub closed spec fn wf(&self) -> bool {
        ordered(self.root) && colored(self.root) && !red(self.root)
    }

    /// An empty tree.
    pub fn new() -> (tree: Self)
        ensures
            tree.wf(),
            tree@ == Set::<T>::empty(),
    {
        RedBlackTree { root: None }
    }

    /// Adds `value` to the set; a value that is already there stays as it is.
    pub fn insert(&mut self, value: T)
        requires
            total_order::<T>(),
            old(self).wf(),
        ensures
            final(self).wf(),
            final(self)@ == old(self)@.insert(value),
    {
        let root = self.root.take();
        let grown = Self::insert_node(root, value);
        match grown {
            Some(mut n) => {
                let ghost n0 = *n;
                n.color = Color::Black;
                proof {
                    assert(ordered(n0.left));
                    assert(elems(Some(n)) =~= elems(grown));
                    lemma_colors(grown);
                    lemma_colors(Some(n));
                }
                self.root = Some(n);
            },
            None => {
                self.root = None;
            },
        }
    }

    /// The tree below `node` with `value` added to it.
    fn insert_node(node: Option<Box<TreeNode<T>>>, value: T) -> (r: Option<Box<TreeNode<T>>>)
        requires
            total_order::<T>(),
            ordered(node),
            colored(node),
        ensures
            ordered(r),
            r is Some,
            elems(r) == elems(node).insert(value),
            near(r),
            black_height(r) == black_height(node),
            !red(node) ==> colored(r),
        decreases node,
    {
        let mut n = match node {
            Some(n) => n,
            None => {
                let r = Some(
                    Box::new(TreeNode { value, color: Color::Red, left: None, right: None }),
                );
                proof {
                    assert(elems(r) =~= elems(node).insert(value));
                    lemma_colors(r);
                    lemma_colors(None::<Box<TreeNode<T>>>);
                }
                return r;
            },
        };
        let ghost n0 = *n;
        proof {
            lemma_colors(node);
            lemma_colors(n0.left);
            lemma_colors(n0.right);
        }
        match compare(&value, &n.value) {
            Rank::Before => {
                let l = n.left.take();
                n.left = Self::insert_node(l, value);
            },
            Rank::After => {
                let r = n.right.take();
                n.right = Self::insert_node(r, value);
            },
            Rank::Same => {
                proof {
                    assert(elems(Some(n)) =~= elems(node).insert(value));
                }
                return Some(n);
            },
        }
        let ghost n1 = *n;
        proof {
            assert(elems(Some(n)) =~= elems(node).insert(value));
            lemma_colors(Some(n));
            lemma_colors(n1.left);
            lemma_colors(n1.right);
            if n1.left is Some {
                lemma_colors(n1.left.unwrap().left);
                lemma_colors(n1.left.unwrap().right);
            }
            if n1.right is Some {
                lemma_colors(n1.right.unwrap().left);
                lemma_colors(n1.right.unwrap().right);
            }
        }
        if Self::is_red(&n.right) && !Self::is_red(&n.left) {
            n = Self::rotate_left(n);
        }
        let ghost n2 = *n;
        proof {
            lemma_colors(Some(n));
            lemma_colors(n2.left);
            lemma_colors(n2.right);
            if n2.left is Some {
                lemma_colors(n2.left.unwrap().left);
                lemma_colors(n2.left.unwrap().right);
            }
        }
        if Self::is_red(&n.left) && Self::left_of_left_is_red(&n) {
            n = Self::rotate_right(n);
        }
        let ghost n3 = *n;
        proof {
            lemma_colors(Some(n));
            lemma_colors(n3.left);
            lemma_colors(n3.right);
            if n3.left is Some {
                lemma_colors(n3.left.unwrap().left);
                lemma_colors(n3.left.unwrap().right);
            }
            if n3.right is Some {
                lemma_colors(n3.right.unwrap().left);
                lemma_colors(n3.right.unwrap().right);
            }
        }
        if Self::is_red(&n.left) && Self::is_red(&n.right) {
            Self::flip_colors(&mut n);
        }
        proof {
            lemma_colors(Some(n));
            lemma_colors(n.left);
            lemma_colors(n.right);
            if n.left is Some {
                lemma_colors(n.left.unwrap().left);
                lemma_colors(n.left.unwrap().right);
            }
            if n.right is Some {
                lemma_colors(n.right.unwrap().left);
                lemma_colors(n.right.unwrap().right);
            }
        }
        Some(n)
    }

    /// Whether `node` is a red node.
    fn is_red(node: &Option<Box<TreeNode<T>>>) -> (r: bool)
        ensures
            r == red(*node),
    {
        match node {
            Some(n) => match n.color {
                Color::Red => true,
                Color::Black => false,
            },
            None => false,
        }
    }

    /// Whether the left child of the left child of `node` is a red node.
    fn left_of_left_is_red(node: &Box<TreeNode<T>>) -> (r: bool)
        requires
            node.left is Some,
        ensures
            r == red(node.left.unwrap().left),
    {
        match &node.left {
            Some(l) => Self::is_red(&l.left),
            None => false,
        }
    }

    /// Turns the tree at `node` to the left: the right child comes to stand
    /// above `node` and takes its colour, and `node` turns red.
    fn rotate_left(node: Box<TreeNode<T>>) -> (r: Box<TreeNode<T>>)
        requires
            total_order::<T>(),
            node.right is Some,
            ordered(Some(node)),
        ensures
            ordered(Some(r)),
            elems(Some(r)) == elems(Some(node)),
            r.color == node.color,
            r.value == node.right.unwrap().value,
            r.right == node.right.unwrap().right,
            r.left is Some,
            r.left.unwrap().color is Red,
            r.left.unwrap().value == node.value,
            r.left.unwrap().left == node.left,
            r.left.unwrap().right == node.right.unwrap().left,
    {
        let ghost t0 = Some(node);
        let ghost x0 = *node;
        let mut node = node;
        proof {
            assert(ordered(t0));
            assert(ordered(x0.left));
            assert(ordered(x0.right));
        }
        let mut x = node.right.take().unwrap();
        let ghost y0 = *x;
        proof {
            assert(x0.right == Some(x));
            assert(ordered(y0.left));
            assert(ordered(y0.right));
            assert(elems(x0.right).contains(y0.value));
            assert(elems(x0.right) =~= elems(y0.left).union(elems(y0.right)).insert(y0.value));
        }
        node.right = x.left.take();
        x.color = node.color;
        node.color = Color::Red;
        proof {
            broadcast use group_order;
            assert forall|v: T| #[trigger] elems(node.right).contains(v) implies lt(node.value, v) by {
                assert(elems(x0.right).contains(v));
            }
            assert forall|v: T| #[trigger] elems(node.left).contains(v) implies lt(v, node.value) by {
                assert(elems(x0.left).contains(v));
            }
            assert(ordered(Some(node)));
            assert(elems(Some(node)) =~= elems(x0.left).union(elems(y0.left)).insert(x0.value));
            assert(elems(t0) =~= elems(x0.left).union(elems(x0.right)).insert(x0.value));
        }
        let ghost turned = Some(node);
        x.left = Some(node);
        proof {
            broadcast use group_order;
            assert(lt(x0.value, y0.value));
            assert forall|v: T| #[trigger] elems(x.left).contains(v) implies lt(v, x.value) by {
                if elems(x0.left).contains(v) {
                    assert(lt(v, x0.value));
                } else if v != x0.value {
                    assert(elems(y0.left).contains(v));
                }
            }
            assert forall|v: T| #[trigger] elems(x.right).contains(v) implies lt(x.value, v) by {
                assert(elems(y0.right).contains(v));
            }
            assert(ordered(Some(x)));
            assert(x.left == turned);
            assert(elems(Some(x)) =~= elems(turned).union(elems(y0.right)).insert(y0.value));
            assert(elems(Some(x)) =~= elems(t0));
        }
        x
    }

    /// Turns the tree at `node` to the right: the left child comes to stand
    /// above `node` and takes its colour, and `node` turns red.
    fn rotate_right(node: Box<TreeNode<T>>) -> (r: Box<TreeNode<T>>)
        requires
            total_order::<T>(),
            node.left is Some,
            ordered(Some(node)),
        ensures
            ordered(Some(r)),
            elems(Some(r)) == elems(Some(node)),
            r.color == node.color,
            r.value == node.left.unwrap().value,
            r.left == node.left.unwrap().left,
            r.right is Some,
            r.right.unwrap().color is Red,
            r.right.unwrap().value == node.value,
            r.right.unwrap().left == node.left.unwrap().right,
            r.right.unwrap().right == node.right,
    {
        let ghost t0 = Some(node);
        let ghost y0 = *node;
        let mut node = node;
        proof {
            assert(ordered(t0));
            assert(ordered(y0.left));
            assert(ordered(y0.right));
        }
        let mut x = node.left.take().unwrap();
        let ghost x0 = *x;
        proof {
            assert(y0.left == Some(x));
            assert(ordered(x0.left));
            assert(ordered(x0.right));
            assert(elems(y0.left).contains(x0.value));
            assert(elems(y0.left) =~= elems(x0.left).union(elems(x0.right)).insert(x0.value));
        }
        node.left = x.right.take();
        x.color = node.color;
        node.color = Color::Red;
        proof {
            broadcast use group_order;
            assert forall|v: T| #[trigger] elems(node.left).contains(v) implies lt(v, node.value) by {
                assert(elems(y0.left).contains(v));
            }
            assert forall|v: T| #[trigger] elems(node.right).contains(v) implies lt(node.value, v) by {
                assert(elems(y0.right).contains(v));
            }
            assert(ordered(Some(node)));
            assert(elems(Some(node)) =~= elems(x0.right).union(elems(y0.right)).insert(y0.value));
            assert(elems(t0) =~= elems(y0.left).union(elems(y0.right)).insert(y0.value));
        }
        let ghost turned = Some(node);
        x.right = Some(node);
        proof {
            broadcast use group_order;
            assert(lt(x0.value, y0.value));
            assert forall|v: T| #[trigger] elems(x.right).contains(v) implies lt(x.value, v) by {
                if elems(y0.right).contains(v) {
                    assert(lt(y0.value, v));
                } else if v != y0.value {
                    assert(elems(x0.right).contains(v));
                }
            }
            assert forall|v: T| #[trigger] elems(x.left).contains(v) implies lt(v, x.value) by {
                assert(elems(x0.left).contains(v));
            }
            assert(ordered(Some(x)));
            assert(x.right == turned);
            assert(elems(Some(x)) =~= elems(x0.left).union(elems(turned)).insert(x0.value));
            assert(elems(Some(x)) =~= elems(t0));
        }
        x
    }

    /// Changes the colour of `node` and of each of its children to the other
    /// colour.
    fn flip_colors(node: &mut Box<TreeNode<T>>)
        requires
            ordered(Some(*old(node))),
        ensures
            ordered(Some(*final(node))),
            elems(Some(*final(node))) == elems(Some(*old(node))),
            final(node).value == old(node).value,
            red(Some(*final(node))) == !red(Some(*old(node))),
            red(final(node).left) == (old(node).left is Some && !red(old(node).left)),
            red(final(node).right) == (old(node).right is Some && !red(old(node).right)),
            final(node).left is Some == old(node).left is Some,
            final(node).right is Some == old(node).right is Some,
            final(node).left is Some ==> final(node).left.unwrap().left == old(
                node,
            ).left.unwrap().left && final(node).left.unwrap().right == old(node).left.unwrap().right,
            final(node).right is Some ==> final(node).right.unwrap().left == old(
                node,
            ).right.unwrap().left && final(node).right.unwrap().right == old(
                node,
            ).right.unwrap().right,
    {
        let ghost n0 = **node;
        proof {
            assert(ordered(n0.left));
            assert(ordered(n0.right));
        }
        node.color = match node.color {
            Color::Red => Color::Black,
            Color::Black => Color::Red,
        };
        let left = node.left.take();
        match left {
            Some(mut l) => {
                let ghost l0 = *l;
                l.color = match l.color {
                    Color::Red => Color::Black,
                    Color::Black => Color::Red,
                };
                proof {
                    assert(ordered(l0.left));
                    assert(ordered(l0.right));
                    assert(elems(Some(l)) =~= elems(n0.left));
                    assert(ordered(Some(l)));
                }
                node.left = Some(l);
            },
            None => {},
        }
        let right = node.right.take();
        match right {
            Some(mut r) => {
                let ghost r0 = *r;
                r.color = match r.color {
                    Color::Red => Color::Black,
                    Color::Black => Color::Red,
                };
                proof {
                    assert(ordered(r0.left));
                    assert(ordered(r0.right));
                    assert(elems(Some(r)) =~= elems(n0.right));
                    assert(ordered(Some(r)));
                }
                node.right = Some(r);
            },
            None => {},
        }
        proof {
            assert(elems(Some(*node)) =~= elems(Some(Box::new(n0))));
        }
    }

    /// Whether `value` is in the set.
    pub fn contains(&self, value: &T) -> (r: bool)
        requires
            total_order::<T>(),
            self.wf(),
        ensures
            r == self@.contains(*value),
    {
        Self::contains_node(&self.root, value)
    }

    /// Whether `value` is in the tree below `node`.
    fn contains_node(node: &Option<Box<TreeNode<T>>>, value: &T) -> (r: bool)
        requires
            total_order::<T>(),
            ordered(*node),
        ensures
            r == elems(*node).contains(*value),
        decreases *node,
    {
        match node {
            Some(n) => {
                proof {
                    broadcast use group_order;
                    if elems(n.right).contains(*value) {
                        assert(lt(n.value, *value));
                    }
                    if elems(n.left).contains(*value) {
                        assert(lt(*value, n.value));
                    }
                }
                match compare(value, &n.value) {
                    Rank::Before => Self::contains_node(&n.left, value),
                    Rank::After => Self::contains_node(&n.right, value),
                    Rank::Same => true,
                }
            },
            None => false,
        }
    }

    /// The values of the set in ascending order.
    pub fn in_order_traversal(&self) -> (r: Vec<&T>)
        requires
            total_order::<T>(),
            self.wf(),
        ensures
            strictly_ascending(targets(r@)),
            forall|x: T| self@.contains(x) <==> targets(r@).contains(x),
    {
        let mut result = Vec::new();
        Self::in_order(&self.root, &mut result);
        proof {
            lemma_flat(self.root);
            assert(targets(result@) =~= flat(self.root));
        }
        result
    }

    /// Adds the values below `node` to `result`, from left to right.
    fn in_order<'a>(node: &'a Option<Box<TreeNode<T>>>, result: &mut Vec<&'a T>)
        ensures
            targets(final(result)@) == targets(old(result)@) + flat(*node),
        decreases *node,
    {
        if let Some(n) = node {
            Self::in_order(&n.left, result);
            let ghost mid = result@;
            result.push(&n.value);
            let ghost mid2 = result@;
            Self::in_order(&n.right, result);
            proof {
                assert(targets(mid2) =~= targets(mid).push(n.value));
                assert(targets(result@) =~= targets(old(result)@) + flat(*node));
            }
        } else {
            proof {
                assert(targets(result@) =~= targets(old(result)@) + flat(*node));
            }
        }
    }
}

} // verus!
