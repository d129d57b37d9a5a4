//! A heap kept as a list of heap-ordered trees whose roots stand in ascending
//! order; trees of equal degree that stand side by side are merged after each
//! extraction.
use vstd::prelude::*;
use vstd::multiset::Multiset;
use crate::order::{le, less, total_order, group_order};
use crate::heaps::queue_model::is_least;

verus! {

/// A min-priority queue over values of type `T`.
#[derive(Debug)]
pub struct BinomialHeap<T> {
    roots: Vec<Node<T>>,
}

#[derive(Debug)]
struct Node<T> {
    value: T,
    children: Vec<Node<T>>,
}

/// The values in the tree at `node`.
spec fn tree_bag<T>(node: Node<T>) -> Multiset<T>
    decreases node, 1int,
{
    forest_bag(node.children@, node.children@.len()).insert(node.value)
}

/// The values in the first `n` trees of `trees`.
spec fn forest_bag<T>(trees: Seq<Node<T>>, n: nat) -> Multiset<T>
    decreases trees, 0int, n,
{
    if n == 0 || n > trees.len() {
        Multiset::empty()
    } else {
        forest_bag(trees, (n - 1) as nat).add(tree_bag(trees[n - 1]))
    }
}

/// The values in `trees`.
spec fn bag<T>(trees: Seq<Node<T>>) -> Multiset<T> {
    forest_bag(trees, trees.len())
}

/// Heap order: no value in the tree is ordered before the value of its parent.
spec fn heap_tree<T: Ord>(node: Node<T>) -> bool
    decreases node,
{
    forall|i: int|
        0 <= i < node.children@.len() ==> le(node.value, (#[trigger] node.children@[i]).value)
            && heap_tree(node.children@[i])
}

/// The roots stand in ascending order.
spec fn ascending_roots<T: Ord>(trees: Seq<Node<T>>) -> bool {
    forall|i: int, j: int| 0 <= i <= j < trees.len() ==> le(trees[i].value, trees[j].value)
}

/// Trees that agree in their first `n` places hold the same values there.
proof fn lemma_forest_prefix<T>(s: Seq<Node<T>>, t: Seq<Node<T>>, n: nat)
    requires
        n <= s.len(),
        n <= t.len(),
        forall|i: int| 0 <= i < n ==> s[i] == t[i],
    ensures
        forest_bag(s, n) == forest_bag(t, n),
    decreases n,
{
    if n > 0 {
        lemma_forest_prefix(s, t, (n - 1) as nat);
    }
}

/// A tree put in at position `i` adds its values to the bag.
proof fn lemma_bag_insert<T>(s: Seq<Node<T>>, i: int, node: Node<T>, n: nat)
    requires
        0 <= i <= n <= s.len(),
    ensures
        forest_bag(s.insert(i, node), n + 1) == forest_bag(s, n).add(tree_bag(node)),
    decreases n,
{
    let t = s.insert(i, node);
    if n == i {
        lemma_forest_prefix(s, t, n);
        assert(t[i] == node);
    } else {
        lemma_bag_insert(s, i, node, (n - 1) as nat);
        assert(t[n as int] == s[n - 1]);
        assert(forest_bag(t, n + 1) =~= forest_bag(s, n).add(tree_bag(node)));
    }
}

/// A tree taken out at position `i` takes its values out of the bag.
proof fn lemma_bag_remove<T>(s: Seq<Node<T>>, i: int, n: nat)
    requires
        0 <= i < n <= s.len(),
    ensures
        forest_bag(s.remove(i), (n - 1) as nat).add(tree_bag(s[i])) == forest_bag(s, n),
    decreases n,
{
    let t = s.remove(i);
    if n == i + 1 {
        lemma_forest_prefix(s, t, i as nat);
    } else {
        lemma_bag_remove(s, i, (n - 1) as nat);
        assert(t[n - 2] == s[n - 1]);
        assert(forest_bag(t, (n - 1) as nat).add(tree_bag(s[i])) =~= forest_bag(s, n));
    }
}

/// A tree that takes the place of another changes the bag by the values in
/// which the two differ.
proof fn lemma_bag_update<T>(s: Seq<Node<T>>, i: int, node: Node<T>, n: nat)
    requires
        0 <= i < n <= s.len(),
    ensures
        forest_bag(s.update(i, node), n).add(tree_bag(s[i])) == forest_bag(s, n).add(
            tree_bag(node),
        ),
    decreases n,
{
    let t = s.update(i, node);
    if n == i + 1 {
        lemma_forest_prefix(s, t, i as nat);
        assert(t[i] == node);
        let a = forest_bag(s, i as nat);
        let x = tree_bag(node);
        let y = tree_bag(s[i]);
        assert(forest_bag(t, i as nat) == a);
        assert(forest_bag(t, n) == forest_bag(t, (n - 1) as nat).add(tree_bag(t[n - 1])));
        assert(forest_bag(s, n) == forest_bag(s, (n - 1) as nat).add(tree_bag(s[n - 1])));
        assert(forest_bag(t, n) == a.add(x));
        assert(forest_bag(s, n) == a.add(y));
        assert(a.add(x).add(y) =~= a.add(y).add(x));
    } else {
        lemma_bag_update(s, i, node, (n - 1) as nat);
        assert(t[n - 1] == s[n - 1]);
        let a = forest_bag(s, (n - 1) as nat);
        let b = forest_bag(t, (n - 1) as nat);
        let x = tree_bag(node);
        let y = tree_bag(s[i]);
        let z = tree_bag(s[n - 1]);
        assert(b.add(y) == a.add(x));
        assert(forest_bag(t, n) == b.add(z));
        assert(forest_bag(s, n) == a.add(z));
        assert(b.add(z).add(y) =~= b.add(y).add(z));
        assert(a.add(x).add(z) =~= a.add(z).add(x));
    }
}

/// Every value of the bag lies in one of the trees.
proof fn lemma_bag_member<T>(s: Seq<Node<T>>, n: nat, x: T) -> (j: int)
    requires
        n <= s.len(),
        forest_bag(s, n).contains(x),
    ensures
        0 <= j < n,
        tree_bag(s[j]).contains(x),
    decreases n,
{
    if tree_bag(s[n - 1]).contains(x) {
        n - 1
    } else {
        lemma_bag_member(s, (n - 1) as nat, x)
    }
}

/// The values of each tree lie in the bag.
proof fn lemma_bag_holds<T>(s: Seq<Node<T>>, n: nat, j: int, x: T)
    requires
        0 <= j < n <= s.len(),
        tree_bag(s[j]).contains(x),
    ensures
        forest_bag(s, n).contains(x),
    decreases n,
{
    if j < n - 1 {
        lemma_bag_holds(s, (n - 1) as nat, j, x);
    }
}

/// In a heap-ordered tree no value is ordered before the root's.
proof fn lemma_tree_least<T: Ord>(node: Node<T>, x: T)
    requires
        total_order::<T>(),
        heap_tree(node),
        tree_bag(node).contains(x),
    ensures
        le(node.value, x),
    decreases node,
{
    broadcast use group_order;
    if x != node.value {
        let kids = node.children@;
        assert(forest_bag(kids, kids.len()).contains(x));
        let j = lemma_bag_member(kids, kids.len(), x);
        assert(heap_tree(kids[j]));
        lemma_tree_least(kids[j], x);
    }
}

/// Where the run of roots with the number `j` ends: at the start of the next
/// run, or at `end` for the last run.
spec fn run_end(starts: Seq<int>, j: int, end: int) -> int {
    if j + 1 < starts.len() {
        starts[j + 1]
    } else {
        end
    }
}

/// The tree at `j` of `after` is the run `j` of the roots `before`, merged:
/// the first root of the run with the other roots of the run as its last
/// children, in their order. Each of these had as many children as the first
/// root had when its turn came, and the root behind the run had not.
spec fn run_merged<T>(
    before: Seq<Node<T>>,
    after: Seq<Node<T>>,
    starts: Seq<int>,
    j: int,
    end: int,
) -> bool {
    let a = starts[j];
    let b = run_end(starts, j, end);
    &&& 0 <= a < b <= end
    &&& after[j].value == before[a].value
    &&& after[j].children@ == before[a].children@ + before.subrange(a + 1, b)
    &&& forall|k: int|
        a < k < b ==> (#[trigger] before[k]).children@.len() == before[a].children@.len() + (k - a)
            - 1
    &&& (j + 1 < starts.len() ==> before[b].children@.len() != after[j].children@.len())
}

/// The roots `after` are the roots `before` parted into runs that begin at
/// `starts`, each run merged into one tree.
spec fn runs_merged<T>(before: Seq<Node<T>>, after: Seq<Node<T>>, starts: Seq<int>) -> bool {
    &&& starts.len() == after.len()
    &&& (after.len() == 0 <==> before.len() == 0)
    &&& (after.len() > 0 ==> starts[0] == 0)
    &&& forall|j: int|
        0 <= j < after.len() ==> #[trigger] run_merged(
            before,
            after,
            starts,
            j,
            before.len() as int,
        )
}

/// The roots `after` are what merging leaves of the roots `before`: going
/// from left to right, each root takes the roots behind it as its last
/// children for as long as the next root has as many children as it has then.
spec fn consolidated<T>(before: Seq<Node<T>>, after: Seq<Node<T>>) -> bool {
    exists|starts: Seq<int>| runs_merged(before, after, starts)
}

/// The state of the merging: the roots up to `i` of `cur` are merged runs of
/// the first `next` roots of `before`, the run of `i` being open, and the
/// roots behind `i` are the other roots of `before`, untouched.
spec fn merging<T>(
    before: Seq<Node<T>>,
    cur: Seq<Node<T>>,
    starts: Seq<int>,
    i: int,
    next: int,
) -> bool {
    &&& 0 <= i < cur.len()
    &&& starts.len() == i + 1
    &&& starts[0] == 0
    &&& 0 < next <= before.len()
    &&& cur.len() - (i + 1) == before.len() - next
    &&& forall|k: int| i < k < cur.len() ==> #[trigger] cur[k] == before[next + k - (i + 1)]
    &&& forall|j: int| 0 <= j <= i ==> #[trigger] run_merged(before, cur, starts, j, next)
}

/// Before any root is merged, the first root is a run of its own.
proof fn lemma_merging_begins<T>(before: Seq<Node<T>>)
    requires
        before.len() > 0,
    ensures
        merging(before, before, seq![0int], 0, 1),
{
    let starts = seq![0int];
    assert(before[0].children@ + before.subrange(1, 1) =~= before[0].children@);
    assert(run_merged(before, before, starts, 0, 1));
}

/// The open run takes the next root as the last child of its first root.
proof fn lemma_run_grows<T>(
    before: Seq<Node<T>>,
    cur: Seq<Node<T>>,
    grown: Seq<Node<T>>,
    starts: Seq<int>,
    i: int,
    next: int,
)
    requires
        merging(before, cur, starts, i, next),
        i + 1 < cur.len(),
        cur[i].children@.len() == cur[i + 1].children@.len(),
        grown.len() == cur.len() - 1,
        forall|k: int| 0 <= k < i ==> grown[k] == cur[k],
        grown[i].value == cur[i].value,
        grown[i].children@ == cur[i].children@.push(cur[i + 1]),
        forall|k: int| i < k < grown.len() ==> grown[k] == cur[k + 1],
    ensures
        merging(before, grown, starts, i, next + 1),
{
    assert(cur[i + 1] == before[next]);
    assert forall|k: int| i < k < grown.len() implies #[trigger] grown[k] == before[next + 1 + k
        - (i + 1)] by {
        assert(cur[k + 1] == before[next + (k + 1) - (i + 1)]);
    }
    assert forall|j: int| 0 <= j <= i implies #[trigger] run_merged(
        before,
        grown,
        starts,
        j,
        next + 1,
    ) by {
        assert(run_merged(before, cur, starts, j, next));
        let a = starts[j];
        if j == i {
            assert(before.subrange(a + 1, next).push(before[next]) =~= before.subrange(
                a + 1,
                next + 1,
            ));
            assert(grown[i].children@ =~= before[a].children@ + before.subrange(a + 1, next + 1));
            assert(cur[i].children@.len() == before[a].children@.len() + (next - (a + 1)));
        }
    }
}

/// The open run ends before a root with another number of children, which
/// begins the next run.
proof fn lemma_run_closes<T>(
    before: Seq<Node<T>>,
    cur: Seq<Node<T>>,
    starts: Seq<int>,
    i: int,
    next: int,
)
    requires
        merging(before, cur, starts, i, next),
        i + 1 < cur.len(),
        cur[i].children@.len() != cur[i + 1].children@.len(),
    ensures
        merging(before, cur, starts.push(next), i + 1, next + 1),
{
    let more = starts.push(next);
    assert(cur[i + 1] == before[next]);
    assert forall|k: int| i + 1 < k < cur.len() implies #[trigger] cur[k] == before[next + 1 + k
        - (i + 2)] by {}
    assert forall|j: int| 0 <= j <= i + 1 implies #[trigger] run_merged(
        before,
        cur,
        more,
        j,
        next + 1,
    ) by {
        if j <= i {
            assert(run_merged(before, cur, starts, j, next));
            assert(more[j] == starts[j]);
            if j < i {
                assert(more[j + 1] == starts[j + 1]);
            }
        } else {
            assert(before[next].children@ + before.subrange(next + 1, next + 1)
                =~= before[next].children@);
        }
    }
}

/// Once no root stands behind the open run, the merging is done.
proof fn lemma_merging_ends<T>(
    before: Seq<Node<T>>,
    cur: Seq<Node<T>>,
    starts: Seq<int>,
    i: int,
    next: int,
)
    requires
        merging(before, cur, starts, i, next),
        i + 1 == cur.len(),
    ensures
        consolidated(before, cur),
{
    assert forall|j: int| 0 <= j < cur.len() implies #[trigger] run_merged(
        before,
        cur,
        starts,
        j,
        before.len() as int,
    ) by {
        assert(run_merged(before, cur, starts, j, next));
    }
    assert(runs_merged(before, cur, starts));
}

/// The tree `b` has the shape of the tree `a`, and each of its values is a
/// clone of the value in its place.
spec fn copied<T: Clone>(a: Node<T>, b: Node<T>) -> bool
    decreases a,
{
    &&& cloned(a.value, b.value)
    &&& a.children@.len() == b.children@.len()
    &&& forall|i: int|
        0 <= i < a.children@.len() ==> copied(#[trigger] a.children@[i], b.children@[i])
}

/// Where a clone of a value is always that value, a copy of a tree holds the
/// values of that tree.
proof fn lemma_copied_bag<T: Clone>(a: Node<T>, b: Node<T>)
    requires
        copied(a, b),
        forall|x: T, y: T| #[trigger] cloned(x, y) ==> x == y,
    ensures
        tree_bag(a) == tree_bag(b),
    decreases a, 1int,
{
    lemma_copied_forest(a.children@, b.children@, a.children@.len());
}

/// Where a clone of a value is always that value, copies of trees hold the
/// values of those trees.
proof fn lemma_copied_forest<T: Clone>(a: Seq<Node<T>>, b: Seq<Node<T>>, n: nat)
    requires
        a.len() == b.len(),
        n <= a.len(),
        forall|i: int| 0 <= i < a.len() ==> copied(#[trigger] a[i], b[i]),
        forall|x: T, y: T| #[trigger] cloned(x, y) ==> x == y,
    ensures
        forest_bag(a, n) == forest_bag(b, n),
    decreases a, 0int, n,
{
    if n > 0 {
        lemma_copied_forest(a, b, (n - 1) as nat);
        lemma_copied_bag(a[n - 1], b[n - 1]);
    }
}

/// A copy of the tree at `node`.
fn copy_tree<T: Clone>(node: &Node<T>) -> (res: Node<T>)
    ensures
        copied(*node, res),
    decreases *node,
{
    let mut kids: Vec<Node<T>> = Vec::new();
    let mut i: usize = 0;
    while i < node.children.len()
        invariant
            i <= node.children@.len(),
            kids@.len() == i,
            forall|j: int| 0 <= j < i ==> copied(#[trigger] node.children@[j], kids@[j]),
        decreases node.children@.len() - i,
    {
        let kid = copy_tree(&node.children[i]);
        kids.push(kid);
        i += 1;
    }
    Node { value: node.value.clone(), children: kids }
}

impl<T: Clone> BinomialHeap<T> {
    /// This heap has the trees of `other`, each value a clone of the value
    /// in its place in `other`.
    pub closed spec fn copy_of(&self, other: &Self) -> bool {
        &&& self.roots@.len() == other.roots@.len()
        &&& forall|i: int|
            0 <= i < other.roots@.len() ==> copied(#[trigger] other.roots@[i], self.roots@[i])
    }

    /// Where a clone of a value is always that value, a copy of a heap holds
    /// the values of that heap.
    pub proof fn lemma_copy_same(&self, other: &Self)
        requires
            self.copy_of(other),
            forall|x: T, y: T| #[trigger] cloned(x, y) ==> x == y,
        ensures
            self@ == other@,
    {
        lemma_copied_forest(other.roots@, self.roots@, other.roots@.len());
    }
}

impl<T: Clone> Clone for BinomialHeap<T> {
    /// A copy of the heap.
    fn clone(&self) -> (res: Self)
        ensures
            res.copy_of(self),
    {
        let mut roots: Vec<Node<T>> = Vec::new();
        let mut i: usize = 0;
        while i < self.roots.len()
            invariant
                i <= self.roots@.len(),
                roots@.len() == i,
                forall|j: int| 0 <= j < i ==> copied(#[trigger] self.roots@[j], roots@[j]),
            decreases self.roots@.len() - i,
        {
            let tree = copy_tree(&self.roots[i]);
            roots.push(tree);
            i += 1;
        }
        BinomialHeap { roots }
    }
}

impl<T> View for BinomialHeap<T> {
    type V = Multiset<T>;

    /// The values held, with their multiplicities.
    closed spec fn view(&self) -> Multiset<T> {
        bag(self.roots@)
    }
}

impl<T: Ord> BinomialHeap<T> {
    /// The representation invariant: every tree is heap-ordered and the roots
    /// stand in ascending order.
    pub closed spec fn wf(&self) -> bool {
        &&& ascending_roots(self.roots@)
        &&& forall|i: int| 0 <= i < self.roots@.len() ==> heap_tree(#[trigger] self.roots@[i])
    }

    /// An empty heap.
    pub fn new() -> (heap: Self)
        ensures
            heap.wf(),
            heap@ == Multiset::<T>::empty(),
    {
        BinomialHeap { roots: Vec::new() }
    }

    /// Adds `value` to the heap.
    pub fn push(&mut self, value: T)
        requires
            total_order::<T>(),
            old(self).wf(),
        ensures
            final(self).wf(),
            final(self)@ == old(self)@.insert(value),
    {
        let node = Node { value, children: Vec::new() };
        proof {
            assert(tree_bag(node) =~= Multiset::empty().insert(value));
        }
        self.insert_root(node);
        proof {
            assert(old(self)@.add(Multiset::empty().insert(value)) =~= old(self)@.insert(value));
        }
    }

    /// Puts the tree `node` among the roots, behind the roots whose values
    /// are not ordered after its own.
    fn insert_root(&mut self, node: Node<T>)
        requires
            total_order::<T>(),
            old(self).wf(),
            heap_tree(node),
        ensures
            final(self).wf(),
            final(self)@ == old(self)@.add(tree_bag(node)),
    {
        let ghost s = self.roots@;
        let mut i = self.roots.len();
        while i > 0 && less(&node.value, &self.roots[i - 1].value)
            invariant
                total_order::<T>(),
                self.roots@ == s,
                i <= s.len(),
                forall|j: int| i <= j < s.len() ==> crate::order::lt(node.value, s[j].value),
            decreases i,
        {
            i -= 1;
        }
        self.roots.insert(i, node);
        proof {
            broadcast use group_order;
            let t = self.roots@;
            lemma_bag_insert(s, i as int, node, s.len());
            assert forall|a: int, b: int| 0 <= a <= b < t.len() implies le(
                t[a].value,
                t[b].value,
            ) by {
                let a0 = if a < i { a } else { a - 1 };
                let b0 = if b < i { b } else { b - 1 };
                if a != i && b != i {
                    assert(le(s[a0].value, s[b0].value));
                } else if a == i && b != i {
                    assert(crate::order::lt(node.value, s[b0].value));
                } else if a != i && b == i {
                    assert(le(s[a].value, s[i - 1].value));
                }
            }
            assert forall|a: int| 0 <= a < t.len() implies heap_tree(#[trigger] t[a]) by {
                if a < i {
                    assert(t[a] == s[a]);
                } else if a > i {
                    assert(t[a] == s[a - 1]);
                }
            }
        }
    }

    /// Removes the least value and returns it, or returns `None` where the
    /// heap is empty.
    pub fn pop(&mut self) -> (r: Option<T>)
        requires
            total_order::<T>(),
            old(self).wf(),
        ensures
            final(self).wf(),
            old(self)@.len() == 0 ==> r is None && final(self)@ == old(self)@,
            old(self)@.len() > 0 ==> r is Some && is_least(r.unwrap(), old(self)@) && final(self)@
                == old(self)@.remove(r.unwrap()),
    {
        let ghost s = self.roots@;
        if self.roots.len() == 0 {
            return None;
        }
        proof {
            Self::lemma_first_least(s);
        }
        let min = self.roots.remove(0);
        let Node { value, children } = min;
        let mut children = children;
        let ghost kids = children@;
        proof {
            let t = self.roots@;
            lemma_bag_remove(s, 0, s.len());
            assert forall|a: int, b: int| 0 <= a <= b < t.len() implies le(
                t[a].value,
                t[b].value,
            ) by {
                assert(le(s[a + 1].value, s[b + 1].value));
            }
            assert forall|a: int| 0 <= a < t.len() implies heap_tree(#[trigger] t[a]) by {
                assert(t[a] == s[a + 1]);
            }
            assert(heap_tree(s[0]));
            assert(bag(s) =~= bag(t).add(forest_bag(kids, kids.len())).insert(value));
        }
        while children.len() > 0
            invariant
                total_order::<T>(),
                self.wf(),
                children@.len() <= kids.len(),
                forall|i: int| 0 <= i < children@.len() ==> children@[i] == kids[i],
                forall|i: int| 0 <= i < kids.len() ==> heap_tree(#[trigger] kids[i]),
                bag(s) == self@.add(forest_bag(kids, children@.len())).insert(value),
            decreases children@.len(),
        {
            let ghost n = children@.len();
            let ghost before = self@;
            let child = children.pop().unwrap();
            proof {
                assert(child == kids[n - 1]);
                assert(forest_bag(kids, n) == forest_bag(kids, (n - 1) as nat).add(
                    tree_bag(kids[n - 1]),
                ));
            }
            self.insert_root(child);
            proof {
                assert(self@.add(forest_bag(kids, (n - 1) as nat)) =~= before.add(
                    forest_bag(kids, n),
                ));
            }
        }
        proof {
            assert(bag(s) =~= self@.insert(value));
            assert(self@ =~= bag(s).remove(value));
        }
        self.consolidate();
        Some(value)
    }

    /// Where the roots stand in ascending order above heap-ordered trees, the
    /// first root holds the least value.
    proof fn lemma_first_least(s: Seq<Node<T>>)
        requires
            total_order::<T>(),
            s.len() > 0,
            ascending_roots(s),
            forall|i: int| 0 <= i < s.len() ==> heap_tree(#[trigger] s[i]),
        ensures
            is_least(s[0].value, bag(s)),
            bag(s).len() > 0,
    {
        broadcast use group_order;
        assert(tree_bag(s[0]).contains(s[0].value));
        lemma_bag_holds(s, s.len(), 0, s[0].value);
        assert forall|x: T| #[trigger] bag(s).contains(x) implies le(s[0].value, x) by {
            let j = lemma_bag_member(s, s.len(), x);
            lemma_tree_least(s[j], x);
            assert(le(s[0].value, s[j].value));
        }
    }

    /// Merges roots of equal degree that stand side by side: the right one
    /// becomes the last child of the left one, which is then held against the
    /// root that stands behind it next; where the degrees differ, the merging
    /// goes on from the right one.
    fn consolidate(&mut self)
        requires
            total_order::<T>(),
            old(self).wf(),
        ensures
            final(self).wf(),
            final(self)@ == old(self)@,
            consolidated(old(self).roots@, final(self).roots@),
    {
        let ghost before = self.roots@;
        let ghost starts = seq![0int];
        let ghost next: int = 1;
        proof {
            if before.len() > 0 {
                lemma_merging_begins(before);
            }
        }
        let mut i: usize = 0;
        while i < self.roots.len() && i + 1 < self.roots.len()
            invariant
                total_order::<T>(),
                self.wf(),
                self@ == old(self)@,
                i <= self.roots@.len(),
                before == old(self).roots@,
                self.roots@.len() == 0 ==> before.len() == 0,
                self.roots@.len() > 0 ==> merging(before, self.roots@, starts, i as int, next),
            decreases self.roots@.len() - i,
        {
            let ghost s = self.roots@;
            if self.roots[i].children.len() == self.roots[i + 1].children.len() {
                let child = self.roots.remove(i + 1);
                let ghost t = self.roots@;
                let ghost left = t[i as int];
                self.roots[i].children.push(child);
                proof {
                    broadcast use group_order;
                    let u = self.roots@;
                    let grown = u[i as int];
                    assert(grown.value == left.value);
                    assert(grown.children@ == left.children@.push(child));
                    lemma_bag_remove(s, i + 1, s.len());
                    lemma_bag_update(t, i as int, grown, t.len());
                    assert(u =~= t.update(i as int, grown));
                    lemma_forest_prefix(grown.children@, left.children@, left.children@.len());
                    assert(tree_bag(grown) =~= tree_bag(left).add(tree_bag(child)));
                    assert(bag(u) =~= bag(s)) by {
                        assert(bag(u).add(tree_bag(left)) == bag(t).add(tree_bag(grown)));
                        assert(bag(t).add(tree_bag(child)) == bag(s));
                        assert forall|x: T| bag(u).count(x) == bag(s).count(x) by {
                            assert(bag(u).add(tree_bag(left)).count(x) == bag(t).add(
                                tree_bag(grown),
                            ).count(x));
                        }
                    }
                    assert(le(s[i as int].value, s[i + 1].value));
                    assert forall|k: int| 0 <= k < grown.children@.len() implies le(
                        grown.value,
                        (#[trigger] grown.children@[k]).value,
                    ) && heap_tree(grown.children@[k]) by {
                        if k < left.children@.len() {
                            assert(heap_tree(s[i as int]));
                            assert(grown.children@[k] == s[i as int].children@[k]);
                        } else {
                            assert(heap_tree(s[i + 1]));
                        }
                    }
                    assert forall|a: int, b: int| 0 <= a <= b < u.len() implies le(
                        u[a].value,
                        u[b].value,
                    ) by {
                        let a0 = if a <= i { a } else { a + 1 };
                        let b0 = if b <= i { b } else { b + 1 };
                        assert(le(s[a0].value, s[b0].value));
                    }
                    assert forall|a: int| 0 <= a < u.len() implies heap_tree(#[trigger] u[a]) by {
                        if a < i {
                            assert(u[a] == s[a]);
                        } else if a > i {
                            assert(u[a] == s[a + 1]);
                        }
                    }
                    assert(child == s[i + 1]);
                    assert(left == s[i as int]);
                    lemma_run_grows(before, s, u, starts, i as int, next);
                    next = next + 1;
                }
            } else {
                proof {
                    lemma_run_closes(before, s, starts, i as int, next);
                    starts = starts.push(next);
                    next = next + 1;
                }
                i += 1;
            }
        }
        proof {
            if self.roots@.len() > 0 {
                lemma_merging_ends(before, self.roots@, starts, i as int, next);
            } else {
                assert(runs_merged(before, self.roots@, Seq::<int>::empty()));
            }
        }
    }

    /// The least value, which stays in the heap.
    pub fn peek(&self) -> (r: Option<&T>)
        requires
            total_order::<T>(),
            self.wf(),
        ensures
            self@.len() == 0 ==> r is None,
            self@.len() > 0 ==> r is Some && is_least(*r.unwrap(), self@),
    {
        if self.roots.len() > 0 {
            proof {
                Self::lemma_first_least(self.roots@);
            }
            Some(&self.roots[0].value)
        } else {
            None
        }
    }

    /// Whether the heap holds no value.
    pub fn is_empty(&self) -> (r: bool)
        requires
            self.wf(),
        ensures
            r == (self@.len() == 0),
    {
        proof {
            if self.roots@.len() > 0 {
                let s = self.roots@;
                assert(tree_bag(s[0]).contains(s[0].value));
                lemma_bag_holds(s, s.len(), 0, s[0].value);
            }
        }
        self.roots.len() == 0
    }
}

} // verus!
