//! A Fibonacci heap: a forest of heap-ordered trees whose roots, and the
//! children of every node, are linked into circular doubly-linked rings.
//!
//! All nodes live in one arena and refer to each other by index; `NIL` stands
//! for an absent reference. The place of a node whose payload has been
//! extracted goes to a free list, from which the next insertion takes it.
use vstd::prelude::*;
use vstd::multiset::Multiset;
use vstd::arithmetic::power2::pow2;
use crate::order::{le, lt, less, total_order, group_order};
use crate::heaps::queue_model::{is_least, least, remainder, lemma_least_unique, lemma_least_exists};

verus! {

/// The index that stands for an absent reference.
const NIL: usize = usize::MAX;

struct Node<T> {
    /// The payload; `None` once it has been extracted.
    value: Option<T>,
    /// Number of children.
    degree: usize,
    /// Reserved for cascading cuts; never set.
    mark: bool,
    /// The node whose child ring holds this node, or `NIL` for a root.
    parent: usize,
    /// Entry point of the child ring, or `NIL`.
    child: usize,
    /// The neighbour to the left in the ring of siblings.
    left: usize,
    /// The neighbour to the right in the ring of siblings.
    right: usize,
    /// The child ring in ring order, starting at `child`.
    kids: Ghost<Seq<usize>>,
    /// A bound on the height of the tree below this node.
    height: Ghost<nat>,
}

/// A min-priority queue over payloads of type `T`.
pub struct FibonacciHeap<T> {
    /// The nodes, each at the index by which the others refer to it.
    arena: Vec<Node<T>>,
    /// A root with the least payload, or `NIL` where the heap is empty.
    min: usize,
    /// The number of payloads held.
    nodes: usize,
    /// The places in the arena whose nodes have given up their payloads.
    free: Vec<usize>,
    /// The root list in ring order.
    roots: Ghost<Seq<usize>>,
    /// A bound on every node's `height`.
    top: Ghost<nat>,
}

/// The node at `x` holds a payload.
spec fn live<T>(s: Seq<Node<T>>, x: usize) -> bool {
    x < s.len() && s[x as int].value is Some
}

/// The payload of the node at `x`.
spec fn val<T>(s: Seq<Node<T>>, x: usize) -> T {
    s[x as int].value.unwrap()
}

/// The payloads of the nodes that have not been extracted.
spec fn bag<T>(s: Seq<Node<T>>) -> Multiset<T>
    decreases s.len(),
{
    if s.len() == 0 {
        Multiset::empty()
    } else {
        match s.last().value {
            Some(v) => bag(s.drop_last()).insert(v),
            None => bag(s.drop_last()),
        }
    }
}

/// `r` is a closed ring: each node's right neighbour is the next one of `r`,
/// its left neighbour the one before, and the ends are joined.
spec fn ring<T>(s: Seq<Node<T>>, r: Seq<usize>) -> bool {
    &&& forall|i: int| 0 <= i < r.len() ==> (#[trigger] r[i]) < s.len()
    &&& forall|i: int| 0 <= i < r.len() - 1 ==> s[(#[trigger] r[i]) as int].right == r[i + 1]
    &&& forall|i: int| 0 < i < r.len() ==> s[(#[trigger] r[i]) as int].left == r[i - 1]
    &&& r.len() > 0 ==> s[r[r.len() - 1] as int].right == r[0] && s[r[0] as int].left == r[r.len()
        - 1]
}

/// `b` is `a` with other neighbours.
spec fn kept<T>(a: Node<T>, b: Node<T>) -> bool {
    &&& a.value == b.value
    &&& a.degree == b.degree
    &&& a.mark == b.mark
    &&& a.parent == b.parent
    &&& a.child == b.child
    &&& a.kids == b.kids
    &&& a.height == b.height
}

/// `t` differs from `s` in sibling links only.
spec fn relinked<T>(s: Seq<Node<T>>, t: Seq<Node<T>>) -> bool {
    &&& t.len() == s.len()
    &&& forall|i: int| 0 <= i < s.len() ==> kept(s[i], #[trigger] t[i])
}

/// `t` is `s` with `x` spliced in before `at`.
spec fn spliced<T>(s: Seq<Node<T>>, t: Seq<Node<T>>, at: usize, x: usize) -> bool {
    let l = s[at as int].left;
    &&& t[x as int].right == at
    &&& t[x as int].left == l
    &&& t[l as int].right == x
    &&& t[at as int].left == x
    &&& (l != at ==> t[at as int].right == s[at as int].right && t[l as int].left == s[l as int].left)
    &&& forall|i: int|
        0 <= i < s.len() && i != x && i != at && i != l ==> (#[trigger] t[i]).left == s[i].left
            && t[i].right == s[i].right
}

/// `t` is `s` with the neighbours of `x` joined to each other.
spec fn bridged<T>(s: Seq<Node<T>>, t: Seq<Node<T>>, x: usize) -> bool {
    let l = s[x as int].left;
    let r = s[x as int].right;
    &&& t[l as int].right == r
    &&& t[r as int].left == l
    &&& (l != r ==> t[l as int].left == s[l as int].left && t[r as int].right == s[r as int].right)
    &&& forall|i: int|
        0 <= i < s.len() && i != l && i != r ==> (#[trigger] t[i]).left == s[i].left && t[i].right
            == s[i].right
}

/// The ring `r` read from position `p` on.
spec fn rotated(r: Seq<usize>, p: int) -> Seq<usize> {
    r.subrange(p, r.len() as int) + r.subrange(0, p)
}

/// What holds of a live node `x` and its child ring. The node is not marked;
/// its children are as many as its degree says, and the child at position
/// `j` of the ring has the degree `j`, so that the tree below a node of
/// degree `k` is a binomial tree of `2^k` nodes.
spec fn node_ok<T: Ord>(s: Seq<Node<T>>, x: usize, loose: Set<usize>) -> bool {
    let k = s[x as int].kids@;
    &&& !s[x as int].mark
    &&& s[x as int].degree == k.len()
    &&& k.no_duplicates()
    &&& ring(s, k)
    &&& forall|j: int| 0 <= j < k.len() ==> s[(#[trigger] k[j]) as int].degree == j
    &&& (k.len() == 0 ==> s[x as int].child == NIL)
    &&& (k.len() > 0 ==> s[x as int].child == k[0])
    &&& forall|c: usize| #[trigger]
        k.contains(c) ==> {
            &&& live(s, c)
            &&& s[c as int].parent == x
            &&& le(val(s, x), val(s, c))
            &&& s[c as int].height@ < s[x as int].height@
            &&& !loose.contains(c)
        }
}

/// The structure of the heap: `roots` is the root ring, every live node that is
/// not in `loose` hangs in the root ring or in its parent's child ring, and
/// the nodes of `loose` are live and in no ring.
spec fn forest<T: Ord>(s: Seq<Node<T>>, roots: Seq<usize>, loose: Set<usize>, top: nat) -> bool {
    &&& s.len() <= usize::MAX
    &&& roots.no_duplicates()
    &&& ring(s, roots)
    &&& forall|x: usize| #[trigger]
        roots.contains(x) ==> live(s, x) && s[x as int].parent == NIL && !loose.contains(x)
    &&& forall|x: usize| #[trigger] live(s, x) ==> node_ok(s, x, loose) && s[x as int].height@ <= top
    &&& forall|x: usize|
        #[trigger] live(s, x) && !loose.contains(x) ==> if s[x as int].parent == NIL {
            roots.contains(x)
        } else {
            live(s, s[x as int].parent) && s[s[x as int].parent as int].kids@.contains(x)
        }
    &&& forall|x: usize| #[trigger] loose.contains(x) ==> live(s, x)
}

/// `min` is a root with the least payload among the roots, or `NIL` when there
/// is no root.
spec fn min_ok<T: Ord>(s: Seq<Node<T>>, roots: Seq<usize>, min: usize) -> bool {
    if roots.len() == 0 {
        min == NIL
    } else {
        &&& roots.contains(min)
        &&& forall|x: usize| #[trigger] roots.contains(x) ==> le(val(s, min), val(s, x))
    }
}

/// Arenas with the same payloads in the same places hold the same bag.
proof fn lemma_bag_same<T>(s: Seq<Node<T>>, t: Seq<Node<T>>)
    requires
        s.len() == t.len(),
        forall|i: int| 0 <= i < s.len() ==> s[i].value == (#[trigger] t[i]).value,
    ensures
        bag(s) == bag(t),
    decreases s.len(),
{
    if s.len() > 0 {
        lemma_bag_same(s.drop_last(), t.drop_last());
        assert(s.last().value == t[t.len() - 1].value);
    }
}

/// A node added at the end of the arena adds its payload to the bag.
proof fn lemma_bag_push<T>(s: Seq<Node<T>>, n: Node<T>)
    ensures
        bag(s.push(n)) == (match n.value {
            Some(v) => bag(s).insert(v),
            None => bag(s),
        }),
{
    assert(s.push(n).drop_last() =~= s);
}

/// The bag holds no more payloads than the arena has nodes.
proof fn lemma_bag_len<T>(s: Seq<Node<T>>)
    ensures
        bag(s).len() <= s.len(),
    decreases s.len(),
{
    if s.len() > 0 {
        lemma_bag_len(s.drop_last());
    }
}

/// The payload of a live node is in the bag.
proof fn lemma_bag_live<T>(s: Seq<Node<T>>, x: usize)
    requires
        live(s, x),
    ensures
        bag(s).contains(val(s, x)),
        bag(s).len() > 0,
    decreases s.len(),
{
    if x == s.len() - 1 {
    } else {
        lemma_bag_live(s.drop_last(), x);
    }
}

/// Every payload of the bag is the payload of a live node.
proof fn lemma_bag_member<T>(s: Seq<Node<T>>, v: T) -> (x: usize)
    requires
        s.len() <= usize::MAX,
        bag(s).contains(v),
    ensures
        live(s, x),
        val(s, x) == v,
    decreases s.len(),
{
    if s.len() == 0 {
        0
    } else {
        if s.last().value == Some(v) {
            (s.len() - 1) as usize
        } else {
            lemma_bag_member(s.drop_last(), v)
        }
    }
}

/// An arena without live nodes holds the empty bag.
proof fn lemma_bag_dead<T>(s: Seq<Node<T>>)
    requires
        s.len() <= usize::MAX,
        forall|x: usize| !live(s, x),
    ensures
        bag(s) == Multiset::<T>::empty(),
    decreases s.len(),
{
    if s.len() > 0 {
        assert(!live(s, (s.len() - 1) as usize));
        assert forall|x: usize| !live(s.drop_last(), x) by {
            assert(!live(s, x));
        }
        lemma_bag_dead(s.drop_last());
    }
}

/// Extracting the payload of `x` removes one occurrence of it from the bag.
proof fn lemma_bag_take<T>(s: Seq<Node<T>>, t: Seq<Node<T>>, x: usize)
    requires
        s.len() == t.len(),
        live(s, x),
        t[x as int].value is None,
        forall|i: int| 0 <= i < s.len() && i != x ==> s[i].value == (#[trigger] t[i]).value,
    ensures
        bag(s).contains(val(s, x)),
        bag(t) == bag(s).remove(val(s, x)),
    decreases s.len(),
{
    let v = val(s, x);
    if x == s.len() - 1 {
        lemma_bag_same(s.drop_last(), t.drop_last());
        assert(bag(t) =~= bag(s).remove(v));
    } else {
        lemma_bag_take(s.drop_last(), t.drop_last(), x);
        assert(s.last().value == t[t.len() - 1].value);
        assert(bag(t) =~= bag(s).remove(v));
    }
}

/// A ring stays a ring where the links of its nodes stay as they are.
proof fn lemma_ring_frame<T>(s: Seq<Node<T>>, t: Seq<Node<T>>, r: Seq<usize>)
    requires
        ring(s, r),
        t.len() == s.len(),
        forall|i: int|
            0 <= i < r.len() ==> t[(#[trigger] r[i]) as int].left == s[r[i] as int].left && t[r[i] as int].right
                == s[r[i] as int].right,
    ensures
        ring(t, r),
{
}

/// A node spliced in before the first node of a ring stands at its end.
proof fn lemma_ring_push<T>(s: Seq<Node<T>>, t: Seq<Node<T>>, r: Seq<usize>, x: usize)
    requires
        ring(s, r),
        r.no_duplicates(),
        r.len() > 0,
        !r.contains(x),
        x < s.len(),
        t.len() == s.len(),
        spliced(s, t, r[0], x),
    ensures
        ring(t, r.push(x)),
        r.push(x).no_duplicates(),
{
    let n = r.len() as int;
    let q = r.push(x);
    assert(s[r[0] as int].left == r[n - 1]);
    assert forall|i: int| 0 <= i < q.len() - 1 implies t[(#[trigger] q[i]) as int].right == q[i
        + 1] by {
        if i < n - 1 {
            assert(r[i] != x);
            assert(r[i] != r[n - 1]);
            assert(s[r[i] as int].right == r[i + 1]);
        }
    }
    assert forall|i: int| 0 < i < q.len() implies t[(#[trigger] q[i]) as int].left == q[i - 1] by {
        if i < n {
            assert(r[i] != x);
            assert(r[i] != r[0]);
            assert(s[r[i] as int].left == r[i - 1]);
        }
    }
}

/// A ring whose first node has been bridged is the ring of the others.
proof fn lemma_ring_pop_front<T>(s: Seq<Node<T>>, t: Seq<Node<T>>, r: Seq<usize>)
    requires
        ring(s, r),
        r.no_duplicates(),
        r.len() >= 2,
        t.len() == s.len(),
        bridged(s, t, r[0]),
    ensures
        ring(t, r.subrange(1, r.len() as int)),
        r.subrange(1, r.len() as int).no_duplicates(),
{
    let n = r.len() as int;
    let q = r.subrange(1, n);
    assert(s[r[0] as int].left == r[n - 1]);
    assert(s[r[0] as int].right == r[1]);
    assert forall|i: int| 0 <= i < q.len() implies (#[trigger] q[i]) < t.len() by {
        assert(q[i] == r[i + 1]);
    }
    assert forall|i: int| 0 <= i < q.len() - 1 implies t[(#[trigger] q[i]) as int].right == q[i
        + 1] by {
        assert(q[i] == r[i + 1]);
        assert(r[i + 1] != r[n - 1]);
        assert(s[r[i + 1] as int].right == r[i + 2]);
    }
    assert forall|i: int| 0 < i < q.len() implies t[(#[trigger] q[i]) as int].left == q[i - 1] by {
        assert(q[i] == r[i + 1]);
        assert(r[i + 1] != r[1]);
        assert(s[r[i + 1] as int].left == r[i]);
    }
    assert(q[0] == r[1]);
    assert(q[q.len() - 1] == r[n - 1]);
}

/// A ring read from another of its nodes on is the same ring.
proof fn lemma_ring_rotate<T>(s: Seq<Node<T>>, r: Seq<usize>, p: int)
    requires
        ring(s, r),
        r.no_duplicates(),
        0 <= p < r.len(),
    ensures
        ring(s, rotated(r, p)),
        rotated(r, p).no_duplicates(),
        rotated(r, p).len() == r.len(),
        rotated(r, p)[0] == r[p],
        forall|x: usize| rotated(r, p).contains(x) <==> r.contains(x),
{
    let n = r.len() as int;
    let q = rotated(r, p);
    assert forall|i: int| 0 <= i < n implies #[trigger] q[i] == (if i < n - p {
        r[i + p]
    } else {
        r[i - (n - p)]
    }) by {}
    assert forall|i: int| 0 <= i < q.len() implies (#[trigger] q[i]) < s.len() by {
        if i < n - p {
            assert(q[i] == r[i + p]);
        } else {
            assert(q[i] == r[i - (n - p)]);
        }
    }
    assert forall|i: int| 0 <= i < q.len() - 1 implies s[(#[trigger] q[i]) as int].right == q[i
        + 1] by {
        if i < n - p {
            assert(q[i] == r[i + p]);
        } else {
            assert(q[i] == r[i - (n - p)]);
        }
    }
    assert forall|i: int| 0 < i < q.len() implies s[(#[trigger] q[i]) as int].left == q[i - 1] by {
        if i < n - p {
            assert(q[i] == r[i + p]);
        } else {
            assert(q[i] == r[i - (n - p)]);
        }
    }
    assert forall|i: int, j: int| 0 <= i < q.len() && 0 <= j < q.len() && i != j implies q[i]
        != q[j] by {
        let a = if i < n - p { i + p } else { i - (n - p) };
        let b = if j < n - p { j + p } else { j - (n - p) };
        assert(q[i] == r[a]);
        assert(q[j] == r[b]);
    }
    assert forall|x: usize| q.contains(x) <==> r.contains(x) by {
        if q.contains(x) {
            let i = choose|i: int| 0 <= i < q.len() && q[i] == x;
            let a = if i < n - p { i + p } else { i - (n - p) };
            assert(r[a] == x);
        }
        if r.contains(x) {
            let a = choose|a: int| 0 <= a < r.len() && r[a] == x;
            let i = if a >= p { a - p } else { a + (n - p) };
            assert(q[i] == x);
        }
    }
    if p > 0 {
        assert(q[n - 1] == r[p - 1]);
    } else {
        assert(q[n - 1] == r[n - 1]);
    }
}

/// The neighbours of a ring node are ring nodes that have it as their
/// neighbour in turn.
proof fn lemma_ring_neighbours<T>(s: Seq<Node<T>>, r: Seq<usize>, x: usize)
    requires
        ring(s, r),
        r.contains(x),
    ensures
        r.contains(s[x as int].right),
        r.contains(s[x as int].left),
        s[s[x as int].right as int].left == x,
        s[s[x as int].left as int].right == x,
{
    let n = r.len() as int;
    let p = choose|p: int| 0 <= p < r.len() && r[p] == x;
    if p < n - 1 {
        assert(s[r[p] as int].right == r[p + 1]);
        assert(s[r[p + 1] as int].left == r[p]);
    } else {
        assert(s[r[n - 1] as int].right == r[0]);
        assert(s[r[0] as int].left == r[n - 1]);
    }
    if p > 0 {
        assert(s[r[p] as int].left == r[p - 1]);
        assert(s[r[p - 1] as int].right == r[p]);
    } else {
        assert(s[r[0] as int].left == r[n - 1]);
        assert(s[r[n - 1] as int].right == r[0]);
    }
}

/// Every live node has a root above it whose payload is not greater.
proof fn lemma_root_above<T: Ord>(s: Seq<Node<T>>, roots: Seq<usize>, top: nat, x: usize) -> (r:
    usize)
    requires
        total_order::<T>(),
        forest(s, roots, Set::empty(), top),
        live(s, x),
    ensures
        roots.contains(r),
        le(val(s, r), val(s, x)),
    decreases top - s[x as int].height@,
{
    broadcast use group_order;
    let p = s[x as int].parent;
    if p == NIL {
        x
    } else {
        assert(live(s, p));
        assert(node_ok(s, p, Set::empty()));
        assert(s[p as int].kids@.contains(x));
        lemma_root_above(s, roots, top, p)
    }
}

/// Every live node has a root above it whose degree is not smaller.
proof fn lemma_root_degree<T: Ord>(s: Seq<Node<T>>, roots: Seq<usize>, top: nat, x: usize) -> (r:
    usize)
    requires
        forest(s, roots, Set::empty(), top),
        live(s, x),
    ensures
        roots.contains(r),
        s[r as int].degree >= s[x as int].degree,
    decreases top - s[x as int].height@,
{
    let p = s[x as int].parent;
    if p == NIL {
        x
    } else {
        assert(live(s, p));
        assert(node_ok(s, p, Set::empty()));
        let k = s[p as int].kids@;
        assert(k.contains(x));
        let j = choose|j: int| 0 <= j < k.len() && k[j] == x;
        assert(s[k[j] as int].degree == j);
        lemma_root_degree(s, roots, top, p)
    }
}

/// Where the only root has no children, it is the only live node.
proof fn lemma_lone_root<T: Ord>(s: Seq<Node<T>>, roots: Seq<usize>, top: nat, x: usize)
    requires
        forest(s, roots, Set::empty(), top),
        roots.len() == 1,
        s[roots[0] as int].kids@.len() == 0,
        live(s, x),
    ensures
        x == roots[0],
    decreases top - s[x as int].height@,
{
    let p = s[x as int].parent;
    if p == NIL {
        assert(roots.contains(x));
    } else {
        assert(live(s, p));
        assert(node_ok(s, p, Set::empty()));
        assert(s[p as int].kids@.contains(x));
        lemma_lone_root(s, roots, top, p);
    }
}

/// The least root is the least live node.
proof fn lemma_min_least<T: Ord>(s: Seq<Node<T>>, roots: Seq<usize>, top: nat, min: usize)
    requires
        total_order::<T>(),
        forest(s, roots, Set::empty(), top),
        min_ok(s, roots, min),
        roots.len() > 0,
    ensures
        is_least(val(s, min), bag(s)),
{
    broadcast use group_order;
    lemma_bag_live(s, min);
    assert forall|v: T| #[trigger] bag(s).contains(v) implies le(val(s, min), v) by {
        let x = lemma_bag_member(s, v);
        let r = lemma_root_above(s, roots, top, x);
    }
}

/// A heap without roots has no live node.
proof fn lemma_no_roots<T: Ord>(s: Seq<Node<T>>, roots: Seq<usize>, top: nat)
    requires
        total_order::<T>(),
        forest(s, roots, Set::empty(), top),
        roots.len() == 0,
    ensures
        bag(s) == Multiset::<T>::empty(),
{
    assert forall|x: usize| !live(s, x) by {
        if live(s, x) {
            let r = lemma_root_above(s, roots, top, x);
        }
    }
    lemma_bag_dead(s);
}

/// `t` holds the payloads of `s`, each in its place.
spec fn same_values<T>(s: Seq<Node<T>>, t: Seq<Node<T>>) -> bool {
    &&& t.len() == s.len()
    &&& forall|i: int| 0 <= i < s.len() ==> (#[trigger] t[i]).value == s[i].value
}

/// The nodes of `p` from position `k` on.
spec fn tail_set(p: Seq<usize>, k: int) -> Set<usize> {
    Set::new(|x: usize| exists|j: int| k <= j < p.len() && #[trigger] p[j] == x)
}

/// A sequence of distinct indices below `n` has at most `n` entries.
proof fn lemma_distinct_bound(r: Seq<usize>, n: nat)
    requires
        r.no_duplicates(),
        forall|i: int| 0 <= i < r.len() ==> (#[trigger] r[i]) < n,
    ensures
        r.len() <= n,
    decreases n,
{
    if r.len() > 0 {
        if n == 0 {
            assert(r[0] < n);
        } else {
            let big = (n - 1) as usize;
            if exists|i: int| 0 <= i < r.len() && r[i] == big {
                let p = choose|i: int| 0 <= i < r.len() && r[i] == big;
                let q = r.remove(p);
                assert forall|i: int| 0 <= i < q.len() implies (#[trigger] q[i]) < (n - 1) as nat by {
                    if i < p {
                        assert(q[i] == r[i]);
                    } else {
                        assert(q[i] == r[i + 1]);
                    }
                }
                assert forall|i: int, j: int|
                    0 <= i < q.len() && 0 <= j < q.len() && i != j implies q[i] != q[j] by {
                    let a = if i < p { i } else { i + 1 };
                    let b = if j < p { j } else { j + 1 };
                    assert(q[i] == r[a]);
                    assert(q[j] == r[b]);
                }
                lemma_distinct_bound(q, (n - 1) as nat);
            } else {
                assert forall|i: int| 0 <= i < r.len() implies (#[trigger] r[i]) < (n - 1) as nat by {
                    assert(r[i] != big);
                }
                lemma_distinct_bound(r, (n - 1) as nat);
            }
        }
    }
}

/// Sibling links may change among the roots and the loose nodes, and nodes may
/// pass between the root ring and the loose set.
proof fn lemma_forest_relink<T: Ord>(
    s: Seq<Node<T>>,
    t: Seq<Node<T>>,
    r: Seq<usize>,
    r2: Seq<usize>,
    loose: Set<usize>,
    loose2: Set<usize>,
    top: nat,
)
    requires
        forest(s, r, loose, top),
        relinked(s, t),
        ring(t, r2),
        r2.no_duplicates(),
        forall|x: usize| #[trigger]
            r2.contains(x) ==> !loose2.contains(x) && (r.contains(x) || (loose.contains(x)
                && s[x as int].parent == NIL)),
        forall|x: usize| #[trigger] loose2.contains(x) ==> loose.contains(x) || r.contains(x),
        forall|x: usize|
            (r.contains(x) || loose.contains(x)) && !(#[trigger] loose2.contains(x))
                ==> r2.contains(x),
        forall|i: int|
            0 <= i < s.len() && ((#[trigger] t[i]).left != s[i].left || t[i].right != s[i].right)
                ==> r.contains(i as usize) || loose.contains(i as usize),
    ensures
        forest(t, r2, loose2, top),
{
    assert forall|x: usize| #[trigger] live(t, x) implies node_ok(t, x, loose2) && t[x as int].height@
        <= top by {
        assert(live(s, x));
        assert(node_ok(s, x, loose));
        let k = s[x as int].kids@;
        assert(t[x as int].kids@ == k);
        assert forall|i: int| 0 <= i < k.len() implies t[(#[trigger] k[i]) as int].left == s[k[i] as int].left
            && t[k[i] as int].right == s[k[i] as int].right by {
            assert(k.contains(k[i]));
            assert(s[k[i] as int].parent == x);
            assert(!r.contains(k[i]));
        }
        lemma_ring_frame(s, t, k);
        assert forall|c: usize| #[trigger] k.contains(c) implies live(t, c) && t[c as int].parent
            == x && le(val(t, x), val(t, c)) && t[c as int].height@ < t[x as int].height@
            && !loose2.contains(c) by {
            assert(live(s, c));
            assert(!r.contains(c));
        }
    }
    assert forall|x: usize| #[trigger] r2.contains(x) implies live(t, x) && t[x as int].parent
        == NIL && !loose2.contains(x) by {
        assert(live(s, x));
    }
    assert forall|x: usize| #[trigger] live(t, x) && !loose2.contains(x) implies (if t[x as int].parent
        == NIL {
        r2.contains(x)
    } else {
        live(t, t[x as int].parent) && t[t[x as int].parent as int].kids@.contains(x)
    }) by {
        assert(live(s, x));
        if loose.contains(x) {
            assert(r2.contains(x));
        } else {
            if s[x as int].parent != NIL {
                assert(live(s, s[x as int].parent));
            }
        }
    }
    assert forall|x: usize| #[trigger] loose2.contains(x) implies live(t, x) by {
        assert(live(s, x));
    }
}

/// The root ring may be read from any of its nodes on.
proof fn lemma_forest_rotate<T: Ord>(
    s: Seq<Node<T>>,
    r: Seq<usize>,
    loose: Set<usize>,
    top: nat,
    x: usize,
) -> (q: Seq<usize>)
    requires
        forest(s, r, loose, top),
        r.contains(x),
    ensures
        forest(s, q, loose, top),
        q.len() == r.len(),
        q[0] == x,
        forall|y: usize| q.contains(y) <==> r.contains(y),
{
    let p = choose|p: int| 0 <= p < r.len() && r[p] == x;
    lemma_ring_rotate(s, r, p);
    let q = rotated(r, p);
    assert forall|y: usize| #[trigger] q.contains(y) implies live(s, y) && s[y as int].parent
        == NIL && !loose.contains(y) by {
        assert(r.contains(y));
    }
    assert forall|y: usize| #[trigger] live(s, y) && !loose.contains(y) implies (if s[y as int].parent
        == NIL {
        q.contains(y)
    } else {
        live(s, s[y as int].parent) && s[s[y as int].parent as int].kids@.contains(y)
    }) by {
        if s[y as int].parent == NIL {
            assert(r.contains(y));
        }
    }
    q
}

/// A fresh node at the end of the arena is a loose node.
proof fn lemma_forest_grow<T: Ord>(s: Seq<Node<T>>, n: Node<T>, r: Seq<usize>, top: nat)
    requires
        total_order::<T>(),
        forest(s, r, Set::empty(), top),
        s.len() < usize::MAX,
        n.value is Some,
        !n.mark,
        n.degree == 0,
        n.child == NIL,
        n.kids@ == Seq::<usize>::empty(),
        n.height@ == 0,
    ensures
        forest(s.push(n), r, Set::empty().insert(s.len() as usize), top),
{
    broadcast use group_order;
    let t = s.push(n);
    let x = s.len() as usize;
    let loose = Set::<usize>::empty().insert(x);
    assert forall|y: usize| #[trigger] live(t, y) implies node_ok(t, y, loose) && t[y as int].height@
        <= top by {
        if y != x {
            assert(live(s, y));
            assert(node_ok(s, y, Set::empty()));
            let k = s[y as int].kids@;
            assert forall|c: usize| #[trigger] k.contains(c) implies live(t, c) && t[c as int].parent
                == y && le(val(t, y), val(t, c)) && t[c as int].height@ < t[y as int].height@
                && !loose.contains(c) by {
                assert(live(s, c));
            }
        }
    }
    assert forall|y: usize| #[trigger] r.contains(y) implies live(t, y) && t[y as int].parent
        == NIL && !loose.contains(y) by {
        assert(live(s, y));
    }
    assert forall|y: usize| #[trigger] live(t, y) && !loose.contains(y) implies (if t[y as int].parent
        == NIL {
        r.contains(y)
    } else {
        live(t, t[y as int].parent) && t[t[y as int].parent as int].kids@.contains(y)
    }) by {
        assert(live(s, y));
        if s[y as int].parent != NIL {
            assert(live(s, s[y as int].parent));
        }
    }
}

/// The free list names dead nodes, each once.
spec fn free_ok<T>(s: Seq<Node<T>>, free: Seq<usize>) -> bool {
    &&& free.no_duplicates()
    &&& forall|i: int| 0 <= i < free.len() ==> !live(s, #[trigger] free[i]) && free[i] < s.len()
}

/// The free list stays good where the payloads stay in their places.
proof fn lemma_free_same<T>(s: Seq<Node<T>>, t: Seq<Node<T>>, free: Seq<usize>)
    requires
        free_ok(s, free),
        same_values(s, t),
    ensures
        free_ok(t, free),
{
    assert forall|i: int| 0 <= i < free.len() implies !live(t, #[trigger] free[i]) && free[i]
        < t.len() by {
        assert(!live(s, free[i]));
    }
}

/// A fresh node in the place of a dead one is a loose node.
proof fn lemma_forest_revive<T: Ord>(
    s: Seq<Node<T>>,
    n: Node<T>,
    r: Seq<usize>,
    top: nat,
    x: usize,
)
    requires
        total_order::<T>(),
        forest(s, r, Set::empty(), top),
        x < s.len(),
        !live(s, x),
        n.value is Some,
        !n.mark,
        n.degree == 0,
        n.child == NIL,
        n.kids@ == Seq::<usize>::empty(),
        n.height@ == 0,
    ensures
        forest(s.update(x as int, n), r, Set::empty().insert(x), top),
{
    broadcast use group_order;
    let t = s.update(x as int, n);
    let loose = Set::<usize>::empty().insert(x);
    assert forall|i: int| 0 <= i < r.len() implies t[(#[trigger] r[i]) as int] == s[r[i] as int] by {
        assert(r.contains(r[i]));
        assert(live(s, r[i]));
    }
    lemma_ring_frame(s, t, r);
    assert forall|y: usize| #[trigger] live(t, y) implies node_ok(t, y, loose) && t[y as int].height@
        <= top by {
        if y != x {
            assert(live(s, y));
            assert(node_ok(s, y, Set::empty()));
            let k = s[y as int].kids@;
            assert forall|i: int| 0 <= i < k.len() implies t[(#[trigger] k[i]) as int] == s[k[i] as int] by {
                assert(k.contains(k[i]));
                assert(live(s, k[i]));
            }
            lemma_ring_frame(s, t, k);
            assert forall|c: usize| #[trigger] k.contains(c) implies live(t, c) && t[c as int].parent
                == y && le(val(t, y), val(t, c)) && t[c as int].height@ < t[y as int].height@
                && !loose.contains(c) by {
                assert(live(s, c));
            }
        }
    }
    assert forall|y: usize| #[trigger] r.contains(y) implies live(t, y) && t[y as int].parent
        == NIL && !loose.contains(y) by {
        assert(live(s, y));
    }
    assert forall|y: usize| #[trigger] live(t, y) && !loose.contains(y) implies (if t[y as int].parent
        == NIL {
        r.contains(y)
    } else {
        live(t, t[y as int].parent) && t[t[y as int].parent as int].kids@.contains(y)
    }) by {
        assert(live(s, y));
        if s[y as int].parent != NIL {
            assert(live(s, s[y as int].parent));
        }
    }
}

/// The parent reference of a loose node may be cleared.
proof fn lemma_forest_orphan<T: Ord>(
    s: Seq<Node<T>>,
    t: Seq<Node<T>>,
    r: Seq<usize>,
    loose: Set<usize>,
    top: nat,
    c: usize,
)
    requires
        forest(s, r, loose, top),
        loose.contains(c),
        t.len() == s.len(),
        forall|i: int| 0 <= i < s.len() && i != c ==> #[trigger] t[i] == s[i],
        kept(s[c as int], Node { parent: s[c as int].parent, ..t[c as int] }),
        t[c as int].left == s[c as int].left,
        t[c as int].right == s[c as int].right,
    ensures
        forest(t, r, loose, top),
{
    lemma_ring_frame(s, t, r);
    assert forall|x: usize| #[trigger] live(t, x) implies node_ok(t, x, loose) && t[x as int].height@
        <= top by {
        assert(live(s, x));
        assert(node_ok(s, x, loose));
        let k = s[x as int].kids@;
        lemma_ring_frame(s, t, k);
        assert forall|d: usize| #[trigger] k.contains(d) implies live(t, d) && t[d as int].parent
            == x && le(val(t, x), val(t, d)) && t[d as int].height@ < t[x as int].height@
            && !loose.contains(d) by {
            assert(live(s, d));
            assert(d != c);
        }
    }
    assert forall|x: usize| #[trigger] r.contains(x) implies live(t, x) && t[x as int].parent
        == NIL && !loose.contains(x) by {
        assert(live(s, x));
    }
    assert forall|x: usize| #[trigger] live(t, x) && !loose.contains(x) implies (if t[x as int].parent
        == NIL {
        r.contains(x)
    } else {
        live(t, t[x as int].parent) && t[t[x as int].parent as int].kids@.contains(x)
    }) by {
        assert(live(s, x));
        if s[x as int].parent != NIL {
            assert(live(s, s[x as int].parent));
        }
    }
    assert forall|x: usize| #[trigger] loose.contains(x) implies live(t, x) by {
        assert(live(s, x));
    }
}

/// A root that gives up its child ring leaves its children loose.
proof fn lemma_forest_release<T: Ord>(
    s: Seq<Node<T>>,
    t: Seq<Node<T>>,
    r: Seq<usize>,
    top: nat,
    z: usize,
)
    requires
        forest(s, r, Set::empty(), top),
        live(s, z),
        r.contains(z),
        t.len() == s.len(),
        forall|i: int| 0 <= i < s.len() && i != z ==> #[trigger] t[i] == s[i],
        t[z as int].value == s[z as int].value,
        t[z as int].mark == s[z as int].mark,
        t[z as int].parent == s[z as int].parent,
        t[z as int].left == s[z as int].left,
        t[z as int].right == s[z as int].right,
        t[z as int].height == s[z as int].height,
        t[z as int].degree == 0,
        t[z as int].child == NIL,
        t[z as int].kids@ == Seq::<usize>::empty(),
    ensures
        forest(t, r, tail_set(s[z as int].kids@, 0), top),
{
    let pending = s[z as int].kids@;
    let loose = tail_set(pending, 0);
    assert(node_ok(s, z, Set::empty()));
    assert forall|c: usize| loose.contains(c) <==> pending.contains(c) by {}
    lemma_ring_frame(s, t, r);
    assert forall|x: usize| #[trigger] live(t, x) implies node_ok(t, x, loose) && t[x as int].height@
        <= top by {
        assert(live(s, x));
        assert(node_ok(s, x, Set::empty()));
        if x != z {
            let k = s[x as int].kids@;
            lemma_ring_frame(s, t, k);
            assert forall|j: int| 0 <= j < k.len() implies t[(#[trigger] k[j]) as int].degree == j by {
                assert(k.contains(k[j]));
                assert(s[k[j] as int].parent == x);
                assert(s[z as int].parent == NIL);
            }
            assert forall|d: usize| #[trigger] k.contains(d) implies live(t, d) && t[d as int].parent
                == x && le(val(t, x), val(t, d)) && t[d as int].height@ < t[x as int].height@
                && !loose.contains(d) by {
                assert(live(s, d));
                if pending.contains(d) {
                    assert(s[d as int].parent == z);
                }
            }
        }
    }
    assert forall|x: usize| #[trigger] r.contains(x) implies live(t, x) && t[x as int].parent
        == NIL && !loose.contains(x) by {
        assert(live(s, x));
        if pending.contains(x) {
            assert(s[x as int].parent == z);
        }
    }
    assert forall|x: usize| #[trigger] live(t, x) && !loose.contains(x) implies (if t[x as int].parent
        == NIL {
        r.contains(x)
    } else {
        live(t, t[x as int].parent) && t[t[x as int].parent as int].kids@.contains(x)
    }) by {
        assert(live(s, x));
        if s[x as int].parent != NIL {
            assert(live(s, s[x as int].parent));
            assert(s[s[x as int].parent as int].kids@.contains(x));
        }
    }
    assert forall|x: usize| #[trigger] loose.contains(x) implies live(t, x) by {
        assert(pending.contains(x));
        assert(live(s, x));
    }
}

/// A loose node without children may give up its payload.
proof fn lemma_forest_bury<T: Ord>(
    s: Seq<Node<T>>,
    t: Seq<Node<T>>,
    r: Seq<usize>,
    top: nat,
    z: usize,
)
    requires
        forest(s, r, Set::empty().insert(z), top),
        s[z as int].kids@.len() == 0,
        t.len() == s.len(),
        forall|i: int| 0 <= i < s.len() && i != z ==> #[trigger] t[i] == s[i],
        t[z as int].value is None,
    ensures
        forest(t, r, Set::empty(), top),
{
    let loose = Set::<usize>::empty().insert(z);
    let none = Set::<usize>::empty();
    assert(loose.contains(z));
    assert(live(s, z));
    assert(node_ok(s, z, loose));
    assert(!r.contains(z));
    assert forall|i: int| 0 <= i < r.len() implies t[(#[trigger] r[i]) as int] == s[r[i] as int] by {
        assert(r.contains(r[i]));
    }
    lemma_ring_frame(s, t, r);
    assert forall|x: usize| #[trigger] live(t, x) implies node_ok(t, x, none) && t[x as int].height@
        <= top by {
        assert(live(s, x));
        assert(node_ok(s, x, loose));
        let k = s[x as int].kids@;
        assert(x != z);
        assert(t[x as int] == s[x as int]);
        assert forall|i: int| 0 <= i < k.len() implies t[(#[trigger] k[i]) as int] == s[k[i] as int] by {
            assert(k.contains(k[i]));
            assert(!loose.contains(k[i]));
        }
        lemma_ring_frame(s, t, k);
        assert forall|d: usize| #[trigger] k.contains(d) implies live(t, d) && t[d as int].parent
            == x && le(val(t, x), val(t, d)) && t[d as int].height@ < t[x as int].height@
            && !none.contains(d) by {
            assert(live(s, d));
            assert(d != z);
        }
    }
    assert forall|x: usize| #[trigger] r.contains(x) implies live(t, x) && t[x as int].parent
        == NIL && !none.contains(x) by {
        assert(live(s, x));
    }
    assert forall|x: usize| #[trigger] live(t, x) && !none.contains(x) implies (if t[x as int].parent
        == NIL {
        r.contains(x)
    } else {
        live(t, t[x as int].parent) && t[t[x as int].parent as int].kids@.contains(x)
    }) by {
        assert(live(s, x));
        assert(!loose.contains(x));
        let p = s[x as int].parent;
        if p != NIL {
            assert(live(s, p));
            assert(s[p as int].kids@.contains(x));
            assert(p != z);
        }
    }
}

/// Every root may be taken out of the root ring at once.
proof fn lemma_forest_scatter<T: Ord>(s: Seq<Node<T>>, r: Seq<usize>, top: nat)
    requires
        forest(s, r, Set::empty(), top),
    ensures
        forest(s, Seq::empty(), tail_set(r, 0), top),
{
    let loose = tail_set(r, 0);
    let none = Seq::<usize>::empty();
    assert forall|c: usize| loose.contains(c) <==> r.contains(c) by {}
    assert forall|x: usize| #[trigger] live(s, x) implies node_ok(s, x, loose) by {
        assert(node_ok(s, x, Set::empty()));
        let k = s[x as int].kids@;
        assert forall|d: usize| #[trigger] k.contains(d) implies !loose.contains(d) by {
            assert(s[d as int].parent == x);
            if r.contains(d) {
                assert(s[d as int].parent == NIL);
            }
        }
    }
    assert forall|x: usize| #[trigger] live(s, x) && !loose.contains(x) implies (if s[x as int].parent
        == NIL {
        none.contains(x)
    } else {
        live(s, s[x as int].parent) && s[s[x as int].parent as int].kids@.contains(x)
    }) by {
        if s[x as int].parent == NIL {
            assert(r.contains(x));
        }
    }
}

/// The loose node `y` becomes the last child of the root `x`.
proof fn lemma_forest_attach<T: Ord>(
    s: Seq<Node<T>>,
    t: Seq<Node<T>>,
    r: Seq<usize>,
    top: nat,
    top2: nat,
    x: usize,
    y: usize,
)
    requires
        total_order::<T>(),
        forest(s, r, Set::empty().insert(y), top),
        r.contains(x),
        le(val(s, x), val(s, y)),
        s[x as int].degree == s[y as int].degree,
        t[x as int].mark == s[x as int].mark,
        !t[y as int].mark,
        same_values(s, t),
        ring(t, s[x as int].kids@.push(y)),
        forall|i: int|
            0 <= i < s.len() && i != x && i != y ==> kept(s[i], #[trigger] t[i]),
        forall|i: int|
            0 <= i < s.len() && i != y && !s[x as int].kids@.contains(i as usize) ==> (#[trigger] t[i]).left
                == s[i].left && t[i].right == s[i].right,
        t[y as int].parent == x,
        t[y as int].degree == s[y as int].degree,
        t[y as int].child == s[y as int].child,
        t[y as int].kids == s[y as int].kids,
        t[y as int].height == s[y as int].height,
        t[x as int].parent == s[x as int].parent,
        t[x as int].degree == s[x as int].degree + 1,
        t[x as int].kids@ == s[x as int].kids@.push(y),
        t[x as int].child == t[x as int].kids@[0],
        t[x as int].height@ >= s[x as int].height@,
        t[x as int].height@ > s[y as int].height@,
        top2 >= top,
        top2 >= t[x as int].height@,
    ensures
        forest(t, r, Set::empty(), top2),
{
    broadcast use group_order;
    let loose = Set::<usize>::empty().insert(y);
    let none = Set::<usize>::empty();
    let kx = s[x as int].kids@;
    let kx2 = kx.push(y);
    assert(loose.contains(y));
    assert(live(s, x));
    assert(live(s, y));
    assert(node_ok(s, x, loose));
    assert(node_ok(s, y, loose));
    assert(!r.contains(y));
    assert(!kx.contains(y));
    assert forall|c: usize| kx2.contains(c) <==> kx.contains(c) || c == y by {
        if kx2.contains(c) {
            let i = choose|i: int| 0 <= i < kx2.len() && kx2[i] == c;
            if i < kx.len() {
                assert(kx[i] == c);
            }
        }
        if kx.contains(c) {
            let i = choose|i: int| 0 <= i < kx.len() && kx[i] == c;
            assert(kx2[i] == c);
        }
        assert(kx2[kx.len() as int] == y);
    }
    assert forall|i: int| 0 <= i < r.len() implies t[(#[trigger] r[i]) as int].left == s[r[i] as int].left
        && t[r[i] as int].right == s[r[i] as int].right by {
        assert(r.contains(r[i]));
        assert(s[r[i] as int].parent == NIL);
        if kx.contains(r[i]) {
            assert(s[r[i] as int].parent == x);
        }
    }
    lemma_ring_frame(s, t, r);
    assert forall|u: usize| #[trigger] live(t, u) implies node_ok(t, u, none) && t[u as int].height@
        <= top2 by {
        assert(live(s, u));
        assert(node_ok(s, u, loose));
        if u == x {
            assert forall|i: int, j: int|
                0 <= i < kx2.len() && 0 <= j < kx2.len() && i != j implies kx2[i] != kx2[j] by {
                if i < kx.len() {
                    assert(kx.contains(kx[i]));
                }
                if j < kx.len() {
                    assert(kx.contains(kx[j]));
                }
            }
            assert forall|c: usize| #[trigger] kx2.contains(c) implies live(t, c) && t[c as int].parent
                == x && le(val(t, x), val(t, c)) && t[c as int].height@ < t[x as int].height@
                && !none.contains(c) by {
                if c != y {
                    assert(kx.contains(c));
                    assert(live(s, c));
                    assert(c != x);
                }
            }
            assert forall|j: int| 0 <= j < kx2.len() implies t[(#[trigger] kx2[j]) as int].degree
                == j by {
                if j < kx.len() {
                    assert(kx.contains(kx[j]));
                    assert(kx[j] != y && kx[j] != x);
                    assert(kept(s[kx[j] as int], t[kx[j] as int]));
                    assert(s[kx[j] as int].degree == j);
                }
            }
        } else {
            let k = s[u as int].kids@;
            assert(t[u as int].kids@ == k);
            assert forall|j: int| 0 <= j < k.len() implies t[(#[trigger] k[j]) as int].degree == j by {
                assert(k.contains(k[j]));
                assert(s[k[j] as int].parent == u);
                assert(!loose.contains(k[j]));
                assert(s[x as int].parent == NIL);
                assert(kept(s[k[j] as int], t[k[j] as int]));
                assert(s[k[j] as int].degree == j);
            }
            assert forall|i: int| 0 <= i < k.len() implies t[(#[trigger] k[i]) as int].left
                == s[k[i] as int].left && t[k[i] as int].right == s[k[i] as int].right by {
                assert(k.contains(k[i]));
                assert(s[k[i] as int].parent == u);
                if kx.contains(k[i]) {
                    assert(s[k[i] as int].parent == x);
                }
            }
            lemma_ring_frame(s, t, k);
            assert forall|c: usize| #[trigger] k.contains(c) implies live(t, c) && t[c as int].parent
                == u && le(val(t, u), val(t, c)) && t[c as int].height@ < t[u as int].height@
                && !none.contains(c) by {
                assert(live(s, c));
                assert(c != y);
                assert(s[c as int].parent == u);
                assert(c != x);
            }
        }
    }
    assert forall|u: usize| #[trigger] r.contains(u) implies live(t, u) && t[u as int].parent
        == NIL && !none.contains(u) by {
        assert(live(s, u));
    }
    assert forall|u: usize| #[trigger] live(t, u) && !none.contains(u) implies (if t[u as int].parent
        == NIL {
        r.contains(u)
    } else {
        live(t, t[u as int].parent) && t[t[u as int].parent as int].kids@.contains(u)
    }) by {
        assert(live(s, u));
        if u != y {
            assert(!loose.contains(u));
            let p = s[u as int].parent;
            if p != NIL {
                assert(live(s, p));
                assert(s[p as int].kids@.contains(u));
            }
        }
    }
}

/// Where there is a least root it is a live node, not the loose node `y`;
/// where there is none, there are no roots.
proof fn lemma_root_or_none<T: Ord>(
    s: Seq<Node<T>>,
    r: Seq<usize>,
    loose: Set<usize>,
    top: nat,
    min: usize,
    y: usize,
)
    requires
        forest(s, r, loose, top),
        min_ok(s, r, min),
        loose.contains(y),
    ensures
        live(s, y),
        min == NIL <==> r.len() == 0,
        min != NIL ==> r.contains(min) && live(s, min) && min != y,
{
    if r.len() > 0 {
        assert(r.contains(min));
        assert(live(s, min));
    }
}

/// The first root: a loose node linked to itself is the root ring.
proof fn lemma_first_root<T: Ord>(
    s: Seq<Node<T>>,
    t: Seq<Node<T>>,
    r: Seq<usize>,
    loose: Set<usize>,
    top: nat,
    y: usize,
)
    requires
        total_order::<T>(),
        forest(s, r, loose, top),
        r.len() == 0,
        loose.contains(y),
        s[y as int].parent == NIL,
        relinked(s, t),
        t[y as int].left == y,
        t[y as int].right == y,
        forall|i: int|
            0 <= i < s.len() && i != y ==> (#[trigger] t[i]).left == s[i].left && t[i].right
                == s[i].right,
    ensures
        forest(t, Seq::<usize>::empty().push(y), loose.remove(y), top),
        min_ok(t, Seq::<usize>::empty().push(y), y),
        forall|x: usize| Seq::<usize>::empty().push(y).contains(x) <==> r.contains(x) || x == y,
{
    broadcast use group_order;
    let q = Seq::<usize>::empty().push(y);
    assert(q[0] == y);
    assert(live(s, y));
    assert forall|x: usize| q.contains(x) <==> x == y by {
        if q.contains(x) {
            let i = choose|i: int| 0 <= i < q.len() && q[i] == x;
            assert(i == 0);
        }
    }
    lemma_forest_relink(s, t, r, q, loose, loose.remove(y), top);
}

/// The last node of the root ring is a root, and not the loose node `y`.
proof fn lemma_last_root<T: Ord>(
    s: Seq<Node<T>>,
    q: Seq<usize>,
    loose: Set<usize>,
    top: nat,
    y: usize,
)
    requires
        forest(s, q, loose, top),
        q.len() > 0,
        loose.contains(y),
    ensures
        live(s, y),
        live(s, q[0]),
        q[0] != y,
        s[q[0] as int].left < s.len(),
        s[q[0] as int].left != y,
        s[q[0] as int].left == q[q.len() - 1],
        !q.contains(y),
{
    assert(q.contains(q[0]));
    assert(q.contains(q[q.len() - 1]));
}

/// A loose node spliced in before the first root is the last root.
proof fn lemma_next_root<T: Ord>(
    s: Seq<Node<T>>,
    t: Seq<Node<T>>,
    r: Seq<usize>,
    q: Seq<usize>,
    loose: Set<usize>,
    top: nat,
    y: usize,
)
    requires
        forest(s, q, loose, top),
        q.len() > 0,
        forall|x: usize| q.contains(x) <==> r.contains(x),
        loose.contains(y),
        s[y as int].parent == NIL,
        relinked(s, t),
        spliced(s, t, q[0], y),
    ensures
        forest(t, q.push(y), loose.remove(y), top),
        forall|x: usize| q.push(y).contains(x) <==> r.contains(x) || x == y,
        forall|x: usize|
            loose.contains(x) && x != y ==> (#[trigger] t[x as int]).left == s[x as int].left
                && t[x as int].right == s[x as int].right,
{
    let q2 = q.push(y);
    lemma_last_root(s, q, loose, top, y);
    lemma_ring_push(s, t, q, y);
    assert forall|x: usize| q2.contains(x) <==> r.contains(x) || x == y by {
        if q2.contains(x) {
            let i = choose|i: int| 0 <= i < q2.len() && q2[i] == x;
            if i < q.len() {
                assert(q[i] == x);
                assert(q.contains(x));
            }
        }
        if r.contains(x) {
            assert(q.contains(x));
            let i = choose|i: int| 0 <= i < q.len() && q[i] == x;
            assert(q2[i] == x);
        }
        if x == y {
            assert(q2[q.len() as int] == y);
        }
    }
    assert forall|x: usize| #[trigger] q2.contains(x) implies !loose.remove(y).contains(x) && (
    q.contains(x) || (loose.contains(x) && s[x as int].parent == NIL)) by {
        if x != y {
            assert(q.contains(x));
        }
    }
    assert forall|i: int|
        0 <= i < s.len() && ((#[trigger] t[i]).left != s[i].left || t[i].right != s[i].right) implies q.contains(
        i as usize,
    ) || loose.contains(i as usize) by {
        assert(i == y || i == q[0] || i == q[q.len() - 1]);
        assert(q.contains(q[0]));
        assert(q.contains(q[q.len() - 1]));
    }
    lemma_forest_relink(s, t, q, q2, loose, loose.remove(y), top);
    assert forall|x: usize| loose.contains(x) && x != y implies (#[trigger] t[x as int]).left
        == s[x as int].left && t[x as int].right == s[x as int].right by {
        assert(live(s, x));
        assert(!q.contains(x));
        assert(q.contains(q[0]));
        assert(q.contains(q[q.len() - 1]));
    }
}

/// The least root among the old roots and a new one is the old least root or
/// the new root, whichever has the smaller payload.
proof fn lemma_min_with<T: Ord>(
    s: Seq<Node<T>>,
    t: Seq<Node<T>>,
    r: Seq<usize>,
    q2: Seq<usize>,
    m: usize,
    y: usize,
    least: usize,
)
    requires
        total_order::<T>(),
        min_ok(s, r, m),
        r.len() > 0,
        relinked(s, t),
        m < s.len(),
        y < s.len(),
        forall|x: usize| r.contains(x) ==> x < s.len(),
        forall|x: usize| q2.contains(x) <==> r.contains(x) || x == y,
        least == (if lt(val(s, y), val(s, m)) {
            y
        } else {
            m
        }),
    ensures
        min_ok(t, q2, least),
{
    broadcast use group_order;
    assert(q2.contains(y));
    assert(q2.len() > 0) by {
        let i = choose|i: int| 0 <= i < q2.len() && q2[i] == y;
    }
    assert(r.contains(m));
    assert(q2.contains(least));
    assert(val(t, y) == val(s, y));
    assert(val(t, m) == val(s, m));
    assert forall|x: usize| #[trigger] q2.contains(x) implies le(val(t, least), val(t, x)) by {
        assert(val(t, x) == val(s, x));
        if x != y {
            assert(r.contains(x));
            assert(le(val(s, m), val(s, x)));
        }
    }
}

/// What the node `n` adds to the weight of the roots: `2^degree` where it
/// holds a payload and has no parent, and nothing else.
spec fn term<T>(n: Node<T>) -> nat {
    if n.value is Some && n.parent == NIL {
        pow2(n.degree as nat)
    } else {
        0
    }
}

/// The weight of the roots: the sum of `2^degree` over the nodes that hold a
/// payload and have no parent.
spec fn weight<T>(s: Seq<Node<T>>) -> nat
    decreases s.len(),
{
    if s.len() == 0 {
        0
    } else {
        weight(s.drop_last()) + term(s.last())
    }
}

/// Arenas whose nodes add the same to the weight have the same weight.
proof fn lemma_weight_same<T>(s: Seq<Node<T>>, t: Seq<Node<T>>)
    requires
        s.len() == t.len(),
        forall|i: int| 0 <= i < s.len() ==> term(s[i]) == term(#[trigger] t[i]),
    ensures
        weight(s) == weight(t),
    decreases s.len(),
{
    if s.len() > 0 {
        lemma_weight_same(s.drop_last(), t.drop_last());
        assert(term(s.last()) == term(t[t.len() - 1]));
    }
}

/// Sibling links do not count for the weight.
proof fn lemma_weight_relinked<T>(s: Seq<Node<T>>, t: Seq<Node<T>>)
    requires
        relinked(s, t),
    ensures
        weight(s) == weight(t),
{
    assert forall|i: int| 0 <= i < s.len() implies term(s[i]) == term(#[trigger] t[i]) by {
        assert(kept(s[i], t[i]));
    }
    lemma_weight_same(s, t);
}

/// A node that takes the place of another changes the weight by what the
/// two add to it.
proof fn lemma_weight_update<T>(s: Seq<Node<T>>, i: int, n: Node<T>)
    requires
        0 <= i < s.len(),
    ensures
        weight(s.update(i, n)) + term(s[i]) == weight(s) + term(n),
    decreases s.len(),
{
    let t = s.update(i, n);
    if i == s.len() - 1 {
        assert(t.drop_last() =~= s.drop_last());
    } else {
        lemma_weight_update(s.drop_last(), i, n);
        assert(t.drop_last() =~= s.drop_last().update(i, n));
    }
}

/// A node added at the end of the arena adds its part to the weight.
proof fn lemma_weight_push<T>(s: Seq<Node<T>>, n: Node<T>)
    ensures
        weight(s.push(n)) == weight(s) + term(n),
{
    assert(s.push(n).drop_last() =~= s);
}

/// No node adds more to the weight than the weight.
proof fn lemma_weight_part<T>(s: Seq<Node<T>>, i: int)
    requires
        0 <= i < s.len(),
    ensures
        term(s[i]) <= weight(s),
    decreases s.len(),
{
    if i < s.len() - 1 {
        lemma_weight_part(s.drop_last(), i);
    }
}

/// Where one node changes, the weight changes by what the node adds before
/// and after.
proof fn lemma_weight_one<T>(s: Seq<Node<T>>, t: Seq<Node<T>>, x: int)
    requires
        s.len() == t.len(),
        0 <= x < s.len(),
        forall|i: int| 0 <= i < s.len() && i != x ==> term(s[i]) == term(#[trigger] t[i]),
    ensures
        weight(t) + term(s[x]) == weight(s) + term(t[x]),
{
    let mid = s.update(x, t[x]);
    lemma_weight_update(s, x, t[x]);
    assert forall|i: int| 0 <= i < s.len() implies term(mid[i]) == term(#[trigger] t[i]) by {}
    lemma_weight_same(mid, t);
}

/// A link keeps the weight: the loser of degree `d` leaves the roots, and the
/// winner goes from degree `d` to degree `d + 1`.
proof fn lemma_weight_attached<T>(s: Seq<Node<T>>, t: Seq<Node<T>>, y: usize, x: usize)
    requires
        attached(s, t, y, x),
        s.len() <= usize::MAX,
        x < s.len(),
        y < s.len(),
        x != y,
        live(s, x),
        live(s, y),
        s[x as int].parent == NIL,
        s[y as int].parent == NIL,
        s[x as int].degree == s[y as int].degree,
        s[x as int].degree < usize::MAX,
    ensures
        weight(t) == weight(s),
{
    let mid = s.update(y as int, t[y as int]);
    lemma_weight_update(s, y as int, t[y as int]);
    assert forall|i: int| 0 <= i < s.len() && i != x implies term(mid[i]) == term(#[trigger] t[i]) by {
        if i != y {
            assert(kept(s[i], t[i]));
        }
    }
    lemma_weight_one(mid, t, x as int);
    vstd::arithmetic::power2::lemma_pow2_unfold((s[x as int].degree + 1) as nat);
    assert(term(t[y as int]) == 0);
    assert(term(mid[x as int]) == pow2(s[x as int].degree as nat));
    assert(term(t[x as int]) == pow2((s[x as int].degree + 1) as nat));
}

/// The number of one-bits in the binary form of `n`.
pub open spec fn ones(n: nat) -> nat
    decreases n,
{
    if n == 0 {
        0
    } else {
        (n % 2) + ones(n / 2)
    }
}

/// What an exponent adds to a sum of powers of two.
spec fn power(o: Option<nat>) -> nat {
    match o {
        Some(k) => pow2(k),
        None => 0,
    }
}

/// The sum of `2^k` over the exponents `k` in `e`.
spec fn powers(e: Seq<Option<nat>>) -> nat
    decreases e.len(),
{
    if e.len() == 0 {
        0
    } else {
        powers(e.drop_last()) + power(e.last())
    }
}

/// The number of exponents in `e`.
spec fn exponents(e: Seq<Option<nat>>) -> nat
    decreases e.len(),
{
    if e.len() == 0 {
        0
    } else {
        exponents(e.drop_last()) + (if e.last() is Some { 1nat } else { 0nat })
    }
}

/// The number of exponents in `e` that are zero.
spec fn zeros(e: Seq<Option<nat>>) -> nat
    decreases e.len(),
{
    if e.len() == 0 {
        0
    } else {
        zeros(e.drop_last()) + (if e.last() == Some(0nat) { 1nat } else { 0nat })
    }
}

/// No exponent stands in `e` twice.
spec fn apart(e: Seq<Option<nat>>) -> bool {
    forall|i: int, j: int|
        0 <= i < e.len() && 0 <= j < e.len() && i != j && (#[trigger] e[i]) is Some ==> e[i]
            != #[trigger] e[j]
}

/// An exponent made smaller by one; the exponent zero falls away.
spec fn lower(o: Option<nat>) -> Option<nat> {
    match o {
        Some(k) => if k == 0 {
            None
        } else {
            Some((k - 1) as nat)
        },
        None => None,
    }
}

/// The exponents of `e`, each made smaller by one.
spec fn halved(e: Seq<Option<nat>>) -> Seq<Option<nat>> {
    Seq::new(e.len(), |i: int| lower(e[i]))
}

/// Halving the exponents halves the sum but for the powers `2^0`, and takes
/// away the exponents that are zero.
proof fn lemma_halved(e: Seq<Option<nat>>)
    ensures
        2 * powers(halved(e)) + zeros(e) == powers(e),
        exponents(halved(e)) + zeros(e) == exponents(e),
    decreases e.len(),
{
    if e.len() > 0 {
        lemma_halved(e.drop_last());
        assert(halved(e).drop_last() =~= halved(e.drop_last()));
        assert(halved(e).last() == lower(e.last()));
        match e.last() {
            Some(k) => {
                if k == 0 {
                    vstd::arithmetic::power2::lemma2_to64();
                } else {
                    vstd::arithmetic::power2::lemma_pow2_unfold(k);
                }
            },
            None => {},
        }
    }
}

/// Exponents that stand apart hold at most one zero.
proof fn lemma_one_zero(e: Seq<Option<nat>>)
    requires
        apart(e),
    ensures
        zeros(e) <= 1,
        zeros(e) == 1 ==> exists|i: int| 0 <= i < e.len() && e[i] == Some(0nat),
        zeros(e) == 0 ==> forall|i: int| 0 <= i < e.len() ==> e[i] != Some(0nat),
    decreases e.len(),
{
    if e.len() > 0 {
        let front = e.drop_last();
        assert forall|i: int, j: int|
            0 <= i < front.len() && 0 <= j < front.len() && i != j && (#[trigger] front[i])
                is Some implies front[i] != #[trigger] front[j] by {
            assert(e[i] is Some);
            assert(e[i] != e[j]);
        }
        lemma_one_zero(front);
        if e.last() == Some(0nat) {
            if zeros(front) == 1 {
                let i = choose|i: int| 0 <= i < front.len() && front[i] == Some(0nat);
                assert(e[i] is Some);
                assert(e[i] != e[e.len() - 1]);
            }
            assert(e[e.len() - 1] == Some(0nat));
        } else {
            if zeros(front) == 1 {
                let i = choose|i: int| 0 <= i < front.len() && front[i] == Some(0nat);
                assert(e[i] == Some(0nat));
            } else {
                assert forall|i: int| 0 <= i < e.len() implies e[i] != Some(0nat) by {
                    if i < front.len() {
                        assert(front[i] != Some(0nat));
                    }
                }
            }
        }
    }
}

/// Exponents that stand apart stand apart when halved.
proof fn lemma_halved_apart(e: Seq<Option<nat>>)
    requires
        apart(e),
    ensures
        apart(halved(e)),
{
    let h = halved(e);
    assert forall|i: int, j: int|
        0 <= i < h.len() && 0 <= j < h.len() && i != j && (#[trigger] h[i]) is Some implies h[i]
            != #[trigger] h[j] by {
        assert(e[i] is Some);
        assert(e[i] != e[j]);
    }
}

/// Distinct powers of two that sum to `n` are as many as `n` has one-bits.
proof fn lemma_ones(e: Seq<Option<nat>>)
    requires
        apart(e),
    ensures
        exponents(e) == ones(powers(e)),
    decreases powers(e),
{
    let n = powers(e);
    let h = halved(e);
    lemma_halved(e);
    lemma_one_zero(e);
    lemma_halved_apart(e);
    if n == 0 {
        lemma_few_exponents(e);
    } else {
        let m = powers(h);
        let z = zeros(e);
        assert(n == 2 * m + z);
        assert(n % 2 == z && n / 2 == m) by {
            if z == 0 {
                assert(n == 2 * m);
            } else {
                assert(n == 2 * m + 1);
            }
        }
        lemma_ones(h);
    }
}

/// There are no more exponents than their powers sum to.
proof fn lemma_few_exponents(e: Seq<Option<nat>>)
    ensures
        exponents(e) <= powers(e),
    decreases e.len(),
{
    if e.len() > 0 {
        lemma_few_exponents(e.drop_last());
        match e.last() {
            Some(k) => {
                vstd::arithmetic::power2::lemma_pow2_pos(k);
            },
            None => {},
        }
    }
}

/// The exponent that the node `n` adds to the roots: its degree where it holds
/// a payload and has no parent.
spec fn exponent<T>(n: Node<T>) -> Option<nat> {
    if n.value is Some && n.parent == NIL {
        Some(n.degree as nat)
    } else {
        None
    }
}

/// The degrees of the roots, each at the place of its root in the arena.
spec fn degrees<T>(s: Seq<Node<T>>) -> Seq<Option<nat>> {
    Seq::new(s.len(), |i: int| exponent(s[i]))
}

/// The weight of the roots is the sum of the powers of their degrees.
proof fn lemma_weight_powers<T>(s: Seq<Node<T>>)
    ensures
        weight(s) == powers(degrees(s)),
    decreases s.len(),
{
    if s.len() > 0 {
        lemma_weight_powers(s.drop_last());
        assert(degrees(s).drop_last() =~= degrees(s.drop_last()));
        assert(degrees(s).last() == exponent(s.last()));
    }
}

/// The number of nodes in the tree at `x`, counted down to `h` levels below
/// `x`.
spec fn below<T>(s: Seq<Node<T>>, x: usize, h: nat) -> nat
    decreases h, 1int, 0nat,
{
    1 + below_kids(s, x, h, s[x as int].kids@.len())
}

/// The number of nodes in the trees at the first `n` children of `x`, counted
/// down to `h` levels below `x`.
spec fn below_kids<T>(s: Seq<Node<T>>, x: usize, h: nat, n: nat) -> nat
    decreases h, 0int, n,
{
    if h == 0 || n == 0 || n > s[x as int].kids@.len() {
        0
    } else {
        below_kids(s, x, h, (n - 1) as nat) + below(
            s,
            s[x as int].kids@[n - 1],
            (h - 1) as nat,
        )
    }
}

/// The tree at a node of degree `k` holds `2^k` nodes.
proof fn lemma_below<T: Ord>(s: Seq<Node<T>>, roots: Seq<usize>, top: nat, x: usize, h: nat)
    requires
        forest(s, roots, Set::empty(), top),
        live(s, x),
        h >= s[x as int].height@,
    ensures
        below(s, x, h) == pow2(s[x as int].degree as nat),
    decreases h, 1int, 0nat,
{
    assert(node_ok(s, x, Set::empty()));
    lemma_below_kids(s, roots, top, x, h, s[x as int].kids@.len());
}

/// The trees at the first `n` children of a node hold `2^n - 1` nodes.
proof fn lemma_below_kids<T: Ord>(
    s: Seq<Node<T>>,
    roots: Seq<usize>,
    top: nat,
    x: usize,
    h: nat,
    n: nat,
)
    requires
        forest(s, roots, Set::empty(), top),
        live(s, x),
        h >= s[x as int].height@,
        n <= s[x as int].kids@.len(),
    ensures
        below_kids(s, x, h, n) == pow2(n) - 1,
    decreases h, 0int, n,
{
    assert(node_ok(s, x, Set::empty()));
    if n == 0 {
        vstd::arithmetic::power2::lemma2_to64();
    } else {
        let k = s[x as int].kids@;
        let c = k[n - 1];
        assert(k.contains(c));
        assert(live(s, c));
        assert(s[c as int].height@ < s[x as int].height@);
        assert(s[c as int].degree == n - 1);
        lemma_below_kids(s, roots, top, x, h, (n - 1) as nat);
        lemma_below(s, roots, top, c, (h - 1) as nat);
        vstd::arithmetic::power2::lemma_pow2_unfold(n);
    }
}

/// `t` is `s` with the root `y` made the last child of `x`: `y` gets `x` as
/// its parent and loses its mark; `x` gets `y` behind its children and one
/// more degree, and `y` as its child where it had none; `y` is linked to
/// itself where it is the only child, and is else spliced in before the child
/// of `x`; every other node stays as it is but for these links.
spec fn attached<T>(s: Seq<Node<T>>, t: Seq<Node<T>>, y: usize, x: usize) -> bool {
    &&& same_values(s, t)
    &&& forall|i: int| 0 <= i < s.len() && i != x && i != y ==> kept(s[i], #[trigger] t[i])
    &&& t[y as int].parent == x
    &&& !t[y as int].mark
    &&& t[y as int].degree == s[y as int].degree
    &&& t[y as int].child == s[y as int].child
    &&& t[y as int].kids == s[y as int].kids
    &&& t[y as int].height == s[y as int].height
    &&& t[x as int].parent == s[x as int].parent
    &&& t[x as int].mark == s[x as int].mark
    &&& t[x as int].degree == s[x as int].degree + 1
    &&& t[x as int].kids@ == s[x as int].kids@.push(y)
    &&& t[x as int].child == (if s[x as int].kids@.len() == 0 {
        y
    } else {
        s[x as int].child
    })
    &&& (if s[x as int].kids@.len() == 0 {
        &&& t[y as int].left == y
        &&& t[y as int].right == y
        &&& forall|i: int|
            0 <= i < s.len() && i != y ==> (#[trigger] t[i]).left == s[i].left && t[i].right
                == s[i].right
    } else {
        spliced(s, t, s[x as int].child, y)
    })
}

/// `t` is `s` with the root `y` taken out of the root ring, its neighbours
/// joined to each other, and made the last child of `x`.
spec fn linked<T>(s: Seq<Node<T>>, t: Seq<Node<T>>, y: usize, x: usize) -> bool {
    exists|mid: Seq<Node<T>>|
        relinked(s, mid) && bridged(s, mid, y) && mid[y as int] == s[y as int] && #[trigger] attached(
            mid,
            t,
            y,
            x,
        )
}

/// Each occupied slot `d` of the degree table holds a root of degree `d`.
spec fn table_ok<T>(s: Seq<Node<T>>, roots: Seq<usize>, table: Seq<Option<usize>>) -> bool {
    forall|d: int|
        0 <= d < table.len() && (#[trigger] table[d]) is Some ==> roots.contains(table[d].unwrap())
            && s[table[d].unwrap() as int].degree == d
}

/// The degree table holds `x`.
spec fn in_table(table: Seq<Option<usize>>, x: usize) -> bool {
    exists|d: int| 0 <= d < table.len() && #[trigger] table[d] == Some(x)
}

/// The nodes in the slots of the degree table from `d` on.
spec fn slots_from(table: Seq<Option<usize>>, d: int) -> Set<usize> {
    Set::new(|x: usize| exists|e: int| d <= e < table.len() && #[trigger] table[e] == Some(x))
}

/// No two roots have the same degree.
spec fn one_per_degree<T>(s: Seq<Node<T>>, roots: Seq<usize>) -> bool {
    forall|u: usize, v: usize|
        #![trigger roots.contains(u), roots.contains(v)]
        roots.contains(u) && roots.contains(v) && u != v ==> s[u as int].degree != s[v as int].degree
}

/// A ring node that is its own right neighbour is alone in its ring.
proof fn lemma_ring_alone<T>(s: Seq<Node<T>>, r: Seq<usize>, x: usize)
    requires
        ring(s, r),
        r.no_duplicates(),
        r.contains(x),
    ensures
        (s[x as int].right == x) <==> r.len() == 1,
        r.len() == 1 ==> r[0] == x,
{
    let p = choose|p: int| 0 <= p < r.len() && r[p] == x;
    if p < r.len() - 1 {
        assert(s[r[p] as int].right == r[p + 1]);
    }
}

/// Links `x` in between `at` and the left neighbour of `at`.
fn splice_before<T>(arena: &mut Vec<Node<T>>, at: usize, x: usize)
    requires
        at < old(arena).len(),
        x < old(arena).len(),
        x != at,
        old(arena)[at as int].left < old(arena).len(),
        old(arena)[at as int].left != x,
    ensures
        relinked(old(arena)@, final(arena)@),
        spliced(old(arena)@, final(arena)@, at, x),
{
    let l = arena[at].left;
    arena[x].right = at;
    arena[x].left = l;
    arena[l].right = x;
    arena[at].left = x;
}

/// Links the two neighbours of `x` to each other.
fn bridge<T>(arena: &mut Vec<Node<T>>, x: usize)
    requires
        x < old(arena).len(),
        old(arena)[x as int].left < old(arena).len(),
        old(arena)[x as int].right < old(arena).len(),
        old(arena)[x as int].left != x,
        old(arena)[x as int].right != x,
    ensures
        relinked(old(arena)@, final(arena)@),
        bridged(old(arena)@, final(arena)@, x),
        final(arena)[x as int] == old(arena)[x as int],
{
    let l = arena[x].left;
    let r = arena[x].right;
    arena[l].right = r;
    arena[r].left = l;
}

/// Grows the degree table with empty slots until it has a slot `d`.
fn ensure_slot(table: &mut Vec<Option<usize>>, d: usize)
    ensures
        final(table)@.len() > d,
        final(table)@.len() >= old(table)@.len(),
        forall|e: int| 0 <= e < old(table)@.len() ==> #[trigger] final(table)@[e] == old(table)@[e],
        forall|e: int|
            old(table)@.len() <= e < final(table)@.len() ==> (#[trigger] final(table)@[e]) is None,
{
    while table.len() <= d
        invariant
            table@.len() >= old(table)@.len(),
            forall|e: int| 0 <= e < old(table)@.len() ==> #[trigger] table@[e] == old(table)@[e],
            forall|e: int| old(table)@.len() <= e < table@.len() ==> (#[trigger] table@[e]) is None,
        decreases d + 1 - table.len(),
    {
        table.push(None);
    }
}

/// Hangs `y` into the child ring of `x` as its last node.
fn attach_child<T>(arena: &mut Vec<Node<T>>, y: usize, x: usize, Ghost(hx): Ghost<nat>)
    requires
        x < old(arena).len(),
        y < old(arena).len(),
        x != y,
        ring(old(arena)@, old(arena)[x as int].kids@),
        old(arena)[x as int].kids@.no_duplicates(),
        !old(arena)[x as int].kids@.contains(y),
        !old(arena)[x as int].kids@.contains(x),
        old(arena)[x as int].kids@.len() == 0 ==> old(arena)[x as int].child == NIL,
        old(arena)[x as int].kids@.len() > 0 ==> old(arena)[x as int].child == old(
            arena,
        )[x as int].kids@[0],
        old(arena)[x as int].degree == old(arena)[x as int].kids@.len(),
        old(arena)[x as int].degree < usize::MAX,
    ensures
        same_values(old(arena)@, final(arena)@),
        ring(final(arena)@, old(arena)[x as int].kids@.push(y)),
        forall|i: int|
            0 <= i < old(arena)@.len() && i != x && i != y ==> kept(
                old(arena)@[i],
                #[trigger] final(arena)@[i],
            ),
        forall|i: int|
            0 <= i < old(arena)@.len() && i != y && !old(arena)[x as int].kids@.contains(i as usize)
                ==> (#[trigger] final(arena)@[i]).left == old(arena)@[i].left && final(arena)@[i].right
                == old(arena)@[i].right,
        final(arena)[y as int].parent == x,
        !final(arena)[y as int].mark,
        final(arena)[y as int].degree == old(arena)[y as int].degree,
        final(arena)[y as int].child == old(arena)[y as int].child,
        final(arena)[y as int].kids == old(arena)[y as int].kids,
        final(arena)[y as int].height == old(arena)[y as int].height,
        final(arena)[x as int].parent == old(arena)[x as int].parent,
        final(arena)[x as int].degree == old(arena)[x as int].degree + 1,
        final(arena)[x as int].kids@ == old(arena)[x as int].kids@.push(y),
        final(arena)[x as int].child == old(arena)[x as int].kids@.push(y)[0],
        final(arena)[x as int].height@ == hx,
        attached(old(arena)@, final(arena)@, y, x),
{
    let ghost s = arena@;
    let ghost kx = s[x as int].kids@;
    let ghost kx2 = kx.push(y);
    arena[y].parent = x;
    let ghost s1 = arena@;
    proof {
        lemma_ring_frame(s, s1, kx);
    }
    let c = arena[x].child;
    if c != NIL {
        proof {
            assert(kx.len() > 0);
            assert(kx.contains(kx[0]));
            assert(kx.contains(kx[kx.len() - 1]));
            assert(s1[c as int].left == kx[kx.len() - 1]);
        }
        splice_before(arena, c, y);
        proof {
            let s2 = arena@;
            lemma_ring_push(s1, s2, kx, y);
            assert forall|i: int|
                0 <= i < s.len() && i != y && !kx.contains(i as usize) implies (#[trigger] s2[i]).left
                    == s[i].left && s2[i].right == s[i].right by {
                assert(i != kx[0]);
                assert(i != kx[kx.len() - 1]);
            }
        }
    } else {
        arena[y].left = y;
        arena[y].right = y;
        arena[x].child = y;
        proof {
            assert(kx.len() == 0);
            assert(kx2[0] == y);
            assert(kx2.len() == 1);
        }
    }
    let ghost s2 = arena@;
    assert(ring(s2, kx2));
    arena[x].degree += 1;
    arena[y].mark = false;
    arena[x].kids = Ghost(kx2);
    arena[x].height = Ghost(hx);
    proof {
        lemma_ring_frame(s2, arena@, kx2);
    }
}

impl<T> View for FibonacciHeap<T> {
    type V = Multiset<T>;

    /// The payloads held, with their multiplicities.
    closed spec fn view(&self) -> Multiset<T> {
        bag(self.arena@)
    }
}

impl<T: Ord> FibonacciHeap<T> {
    /// The representation invariant: closed rings, heap order, binomial
    /// trees without marks, a least root at `min`, a node count that matches
    /// the payloads held and the weight of the roots, and a free list that
    /// names vacated places only.
    pub closed spec fn wf(&self) -> bool {
        &&& forest(self.arena@, self.roots@, Set::empty(), self.top@)
        &&& min_ok(self.arena@, self.roots@, self.min)
        &&& self.nodes == bag(self.arena@).len()
        &&& free_ok(self.arena@, self.free@)
        &&& weight(self.arena@) == self.nodes
    }

    /// Slot `i` of the arena holds a node whose payload has not been extracted.
    pub closed spec fn occupied(&self, i: int) -> bool {
        0 <= i < self.arena@.len() && self.arena@[i].value is Some
    }

    /// The payload of the node in slot `i`.
    pub closed spec fn payload(&self, i: int) -> T {
        self.arena@[i].value.unwrap()
    }

    /// The slot of the parent of the node in slot `i`; `None` for a root.
    pub closed spec fn parent_of(&self, i: int) -> Option<int> {
        if self.arena@[i].parent == NIL {
            None
        } else {
            Some(self.arena@[i].parent as int)
        }
    }

    /// Heap order: no node's payload is ordered before its parent's.
    pub open spec fn heap_ordered(&self) -> bool {
        forall|i: int|
            #![trigger self.parent_of(i)]
            self.occupied(i) && self.parent_of(i) is Some ==> self.occupied(
                self.parent_of(i).unwrap(),
            ) && le(self.payload(self.parent_of(i).unwrap()), self.payload(i))
    }

    /// The slot of the left neighbour of the node in slot `i`.
    pub closed spec fn left_of(&self, i: int) -> int {
        self.arena@[i].left as int
    }

    /// The slot of the right neighbour of the node in slot `i`.
    pub closed spec fn right_of(&self, i: int) -> int {
        self.arena@[i].right as int
    }

    /// The degree that the node in slot `i` records.
    pub closed spec fn degree_of(&self, i: int) -> nat {
        self.arena@[i].degree as nat
    }

    /// The slots of the children of the node in slot `i`, in the order of
    /// their ring.
    pub closed spec fn children_of(&self, i: int) -> Seq<int> {
        self.arena@[i].kids@.map_values(|c: usize| c as int)
    }

    /// The slot of the node that the heap refers to as its minimum.
    pub closed spec fn minimum(&self) -> int {
        self.min as int
    }

    /// Whether the node in slot `i` is marked.
    pub closed spec fn marked(&self, i: int) -> bool {
        self.arena@[i].mark
    }

    /// The slot of the child by which the node in slot `i` refers to its
    /// child ring; `None` for a node without children.
    pub closed spec fn child_of(&self, i: int) -> Option<int> {
        if self.arena@[i].child == NIL {
            None
        } else {
            Some(self.arena@[i].child as int)
        }
    }

    /// The slot that the next payload pushed goes to.
    pub closed spec fn next_slot(&self) -> int {
        if self.free@.len() > 0 {
            self.free@.last() as int
        } else {
            self.arena@.len() as int
        }
    }

    /// The node in slot `i` is as it was in `before`, but for its neighbours.
    pub open spec fn same_node(&self, before: Self, i: int) -> bool {
        &&& self.occupied(i)
        &&& self.payload(i) == before.payload(i)
        &&& self.parent_of(i) == before.parent_of(i)
        &&& self.child_of(i) == before.child_of(i)
        &&& self.degree_of(i) == before.degree_of(i)
        &&& self.children_of(i) == before.children_of(i)
        &&& self.marked(i) == before.marked(i)
    }

    /// The heap is `before` with `value` pushed. The new node is a root
    /// without children and without a mark, in a slot that held no payload;
    /// every other node is as it was but for its neighbours. Where `before`
    /// was empty, the new node is its own neighbour on both sides and the
    /// minimum. Else it stands between the minimum of `before` and the left
    /// neighbour of that minimum, no other link has changed, and it is the
    /// minimum where `value` is ordered strictly before the payload of the
    /// minimum of `before`, which else stays the minimum.
    pub open spec fn pushed(&self, before: Self, value: T) -> bool {
        let x = before.next_slot();
        &&& !before.occupied(x)
        &&& self.occupied(x)
        &&& self.payload(x) == value
        &&& self.parent_of(x) is None
        &&& self.child_of(x) is None
        &&& self.degree_of(x) == 0
        &&& self.children_of(x).len() == 0
        &&& !self.marked(x)
        &&& forall|i: int| i != x ==> #[trigger] self.occupied(i) == before.occupied(i)
        &&& forall|i: int| #[trigger] before.occupied(i) ==> self.same_node(before, i)
        &&& if !before.has_minimum() {
            &&& self.minimum() == x
            &&& self.left_of(x) == x
            &&& self.right_of(x) == x
            &&& forall|i: int| #[trigger]
                before.occupied(i) ==> self.left_of(i) == before.left_of(i) && self.right_of(i)
                    == before.right_of(i)
        } else {
            let m = before.minimum();
            let l = before.left_of(m);
            &&& self.right_of(x) == m
            &&& self.left_of(x) == l
            &&& self.right_of(l) == x
            &&& self.left_of(m) == x
            &&& forall|i: int| #[trigger]
                before.occupied(i) ==> (i != m ==> self.left_of(i) == before.left_of(i)) && (i != l
                    ==> self.right_of(i) == before.right_of(i))
            &&& self.minimum() == (if lt(value, before.payload(m)) {
                x
            } else {
                m
            })
        }
    }

    /// The payloads of the nodes are the payloads that the heap holds, and
    /// the payload of the minimum is the least of them.
    pub proof fn lemma_payloads(&self)
        requires
            total_order::<T>(),
            self.wf(),
        ensures
            forall|i: int| #[trigger] self.occupied(i) ==> self@.contains(self.payload(i)),
            forall|v: T| #[trigger]
                self@.contains(v) ==> exists|i: int| self.occupied(i) && self.payload(i) == v,
            self.has_minimum() ==> is_least(self.payload(self.minimum()), self@),
            self.has_minimum() <==> self@.len() > 0,
    {
        let s = self.arena@;
        assert forall|i: int| #[trigger] self.occupied(i) implies self@.contains(
            self.payload(i),
        ) by {
            lemma_bag_live(s, i as usize);
        }
        assert forall|v: T| #[trigger] self@.contains(v) implies exists|i: int|
            self.occupied(i) && self.payload(i) == v by {
            let x = lemma_bag_member(s, v);
            assert(self.occupied(x as int) && self.payload(x as int) == v);
        }
        if self.roots@.len() > 0 {
            assert(self.roots@.contains(self.min));
            assert(live(s, self.min));
            lemma_min_least(s, self.roots@, self.top@, self.min);
            lemma_bag_live(s, self.min);
        } else {
            lemma_no_roots(s, self.roots@, self.top@);
        }
    }

    /// The shape of a well-formed heap. Every ring is closed: the neighbours
    /// of a node hold payloads and have the node as their neighbour in turn.
    /// The minimum is a root, and no root has a payload ordered before its
    /// payload. The degree of a node is the number of its children, which are
    /// the nodes that have it as their parent.
    pub proof fn lemma_shape(&self)
        requires
            self.wf(),
        ensures
            forall|i: int| #[trigger]
                self.occupied(i) ==> self.occupied(self.left_of(i)) && self.occupied(
                    self.right_of(i),
                ) && self.left_of(self.right_of(i)) == i && self.right_of(self.left_of(i)) == i,
            self.has_minimum() ==> self.occupied(self.minimum()) && self.parent_of(self.minimum())
                is None,
            forall|i: int|
                self.has_minimum() && #[trigger] self.occupied(i) && self.parent_of(i) is None
                    ==> le(self.payload(self.minimum()), self.payload(i)),
            forall|i: int| #[trigger]
                self.occupied(i) ==> self.degree_of(i) == self.children_of(i).len()
                    && self.children_of(i).no_duplicates(),
            forall|i: int, j: int|
                self.occupied(i) ==> (#[trigger] self.children_of(i).contains(j) <==> self.occupied(
                    j,
                ) && self.parent_of(j) == Some(i)),
    {
        let s = self.arena@;
        let r = self.roots@;
        let none = Set::<usize>::empty();
        assert forall|i: int| #[trigger] self.occupied(i) implies self.occupied(self.left_of(i))
            && self.occupied(self.right_of(i)) && self.left_of(self.right_of(i)) == i
            && self.right_of(self.left_of(i)) == i by {
            let x = i as usize;
            assert(live(s, x));
            if s[i].parent == NIL {
                assert(r.contains(x));
                lemma_ring_neighbours(s, r, x);
                assert(live(s, s[i].left));
                assert(live(s, s[i].right));
            } else {
                let p = s[i].parent;
                assert(live(s, p));
                assert(node_ok(s, p, none));
                let k = s[p as int].kids@;
                assert(k.contains(x));
                lemma_ring_neighbours(s, k, x);
                assert(live(s, s[i].left));
                assert(live(s, s[i].right));
            }
        }
        if self.has_minimum() {
            if r.len() == 0 {
            } else {
                assert(r.contains(self.min));
                assert(live(s, self.min));
            }
        }
        assert forall|i: int|
            self.has_minimum() && #[trigger] self.occupied(i) && self.parent_of(i) is None implies le(
            self.payload(self.minimum()),
            self.payload(i),
        ) by {
            let x = i as usize;
            assert(live(s, x));
            assert(r.contains(x));
        }
        assert forall|i: int| #[trigger] self.occupied(i) implies self.degree_of(i)
            == self.children_of(i).len() && self.children_of(i).no_duplicates() by {
            let x = i as usize;
            assert(live(s, x));
            assert(node_ok(s, x, none));
            let k = s[i].kids@;
            let ki = self.children_of(i);
            assert forall|a: int, b: int| 0 <= a < ki.len() && 0 <= b < ki.len() && a != b implies ki[a]
                != ki[b] by {
                assert(k[a] != k[b]);
            }
        }
        assert forall|i: int, j: int| self.occupied(i) implies (#[trigger] self.children_of(
            i,
        ).contains(j) <==> self.occupied(j) && self.parent_of(j) == Some(i)) by {
            let x = i as usize;
            assert(live(s, x));
            assert(node_ok(s, x, none));
            let k = s[i].kids@;
            let ki = self.children_of(i);
            if ki.contains(j) {
                let a = choose|a: int| 0 <= a < ki.len() && ki[a] == j;
                assert(k.contains(k[a]));
                assert(live(s, k[a]));
            }
            if self.occupied(j) && self.parent_of(j) == Some(i) {
                let y = j as usize;
                assert(live(s, y));
                assert(s[j].parent == x);
                assert(k.contains(y));
                let a = choose|a: int| 0 <= a < k.len() && k[a] == y;
                assert(ki[a] == j);
            }
        }
    }

    /// What else holds of the nodes of a well-formed heap: no node is marked;
    /// a node refers to the first node of its child ring as its child, or to
    /// none where it has no children; and the child at position `j` of the
    /// ring has the degree `j`.
    pub proof fn lemma_children(&self)
        requires
            self.wf(),
        ensures
            forall|i: int| #[trigger]
                self.occupied(i) ==> !self.marked(i) && self.child_of(i) == (if self.children_of(
                    i,
                ).len() == 0 {
                    None
                } else {
                    Some(self.children_of(i)[0])
                }),
            forall|i: int, j: int|
                self.occupied(i) && 0 <= j < self.children_of(i).len() ==> self.degree_of(
                    #[trigger] self.children_of(i)[j],
                ) == j,
    {
        let s = self.arena@;
        let none = Set::<usize>::empty();
        assert forall|i: int| #[trigger] self.occupied(i) implies !self.marked(i) && self.child_of(
            i,
        ) == (if self.children_of(i).len() == 0 {
            None
        } else {
            Some(self.children_of(i)[0])
        }) by {
            let x = i as usize;
            assert(live(s, x));
            assert(node_ok(s, x, none));
            let k = s[i].kids@;
            if k.len() > 0 {
                assert(k.contains(k[0]));
                assert(live(s, k[0]));
            }
        }
        assert forall|i: int, j: int|
            self.occupied(i) && 0 <= j < self.children_of(i).len() implies self.degree_of(
            #[trigger] self.children_of(i)[j],
        ) == j by {
            let x = i as usize;
            assert(live(s, x));
            assert(node_ok(s, x, none));
            let k = s[i].kids@;
            assert(s[k[j] as int].degree == j);
        }
    }

    /// The number of slots of the arena.
    pub closed spec fn slots(&self) -> nat {
        self.arena@.len()
    }

    /// The sum of `2^degree` over the roots in the first `n` slots.
    pub open spec fn root_weight(&self, n: nat) -> nat
        decreases n,
    {
        if n == 0 {
            0
        } else {
            self.root_weight((n - 1) as nat) + (if self.occupied(n - 1) && self.parent_of(n - 1)
                is None {
                pow2(self.degree_of(n - 1))
            } else {
                0
            })
        }
    }

    /// The trees of the roots hold all the nodes: the sum of `2^degree` over
    /// the roots is the count.
    pub proof fn lemma_root_weight(&self)
        requires
            self.wf(),
        ensures
            self.root_weight(self.slots()) == self.count(),
    {
        self.lemma_root_weight_upto(self.slots());
        assert(self.arena@.subrange(0, self.arena@.len() as int) =~= self.arena@);
    }

    /// The sum of `2^degree` over the roots in the first `n` slots is the
    /// weight of these slots.
    proof fn lemma_root_weight_upto(&self, n: nat)
        requires
            n <= self.arena@.len(),
        ensures
            self.root_weight(n) == weight(self.arena@.subrange(0, n as int)),
        decreases n,
    {
        if n > 0 {
            self.lemma_root_weight_upto((n - 1) as nat);
            let part = self.arena@.subrange(0, n as int);
            assert(part.drop_last() =~= self.arena@.subrange(0, n - 1));
            assert(part.last() == self.arena@[n - 1]);
        }
    }

    /// The number of roots in the first `n` slots.
    pub open spec fn root_count(&self, n: nat) -> nat
        decreases n,
    {
        if n == 0 {
            0
        } else {
            self.root_count((n - 1) as nat) + (if self.occupied(n - 1) && self.parent_of(n - 1)
                is None {
                1nat
            } else {
                0nat
            })
        }
    }

    /// The number of roots in the first `n` slots is the number of degrees
    /// that these slots add to the roots.
    proof fn lemma_root_count_upto(&self, n: nat)
        requires
            n <= self.arena@.len(),
        ensures
            self.root_count(n) == exponents(degrees(self.arena@.subrange(0, n as int))),
        decreases n,
    {
        if n > 0 {
            self.lemma_root_count_upto((n - 1) as nat);
            let part = self.arena@.subrange(0, n as int);
            assert(part.drop_last() =~= self.arena@.subrange(0, n - 1));
            assert(degrees(part).drop_last() =~= degrees(part.drop_last()));
            assert(degrees(part).last() == exponent(self.arena@[n - 1]));
        }
    }

    /// Where no two roots have the same degree, as after every `pop`, the
    /// roots are as many as the count has one-bits in its binary form.
    pub proof fn lemma_root_count(&self)
        requires
            self.wf(),
            self.one_tree_per_degree(),
        ensures
            self.root_count(self.slots()) == ones(self.count()),
    {
        let s = self.arena@;
        let e = degrees(s);
        self.lemma_root_count_upto(self.slots());
        assert(s.subrange(0, s.len() as int) =~= s);
        lemma_weight_powers(s);
        assert forall|i: int, j: int|
            0 <= i < e.len() && 0 <= j < e.len() && i != j && (#[trigger] e[i]) is Some implies e[i]
                != #[trigger] e[j] by {
            if e[j] is Some {
                assert(self.occupied(i) && self.occupied(j));
                assert(self.degree_of(i) != self.degree_of(j));
            }
        }
        lemma_ones(e);
    }

    /// No node has a degree above the binary logarithm of the count: `2` to
    /// the degree of a node is at most the count.
    pub proof fn lemma_degree_bound(&self, i: int)
        requires
            self.wf(),
            self.occupied(i),
        ensures
            pow2(self.degree_of(i)) <= self.count(),
    {
        let s = self.arena@;
        let r = lemma_root_degree(s, self.roots@, self.top@, i as usize);
        assert(live(s, r));
        lemma_weight_part(s, r as int);
        if s[r as int].degree > s[i].degree {
            vstd::arithmetic::power2::lemma_pow2_strictly_increases(
                s[i].degree as nat,
                s[r as int].degree as nat,
            );
        }
    }

    /// No two roots have the same degree.
    pub open spec fn one_tree_per_degree(&self) -> bool {
        forall|i: int, j: int|
            #![trigger self.occupied(i), self.occupied(j)]
            self.occupied(i) && self.occupied(j) && i != j && self.parent_of(i) is None
                && self.parent_of(j) is None ==> self.degree_of(i) != self.degree_of(j)
    }

    /// The number of nodes in the tree below the node in slot `i`, that node
    /// included.
    pub closed spec fn tree_size(&self, i: int) -> nat {
        below(self.arena@, i as usize, self.arena@[i].height@)
    }

    /// The tree below a node counts the node and the trees below its
    /// children, and the tree below a node of degree `k` holds `2^k` nodes.
    pub proof fn lemma_tree_size(&self, i: int)
        requires
            self.wf(),
            self.occupied(i),
        ensures
            self.tree_size(i) == pow2(self.degree_of(i)),
    {
        lemma_below(self.arena@, self.roots@, self.top@, i as usize, self.arena@[i].height@);
    }

    /// The node count that the heap keeps.
    pub closed spec fn count(&self) -> nat {
        self.nodes as nat
    }

    /// The heap refers to a node as its minimum.
    pub closed spec fn has_minimum(&self) -> bool {
        self.min != NIL
    }

    /// The count of a well-formed heap is the number of payloads it holds, and
    /// is zero exactly where the heap has no minimum.
    pub proof fn lemma_count(&self)
        requires
            total_order::<T>(),
            self.wf(),
        ensures
            self.count() == self@.len(),
            self.count() == 0 <==> !self.has_minimum(),
    {
        if self.roots@.len() > 0 {
            assert(self.roots@.contains(self.min));
            assert(live(self.arena@, self.min));
            lemma_bag_live(self.arena@, self.min);
        } else {
            lemma_no_roots(self.arena@, self.roots@, self.top@);
        }
    }

    /// A well-formed heap is heap-ordered.
    pub proof fn lemma_heap_ordered(&self)
        requires
            self.wf(),
        ensures
            self.heap_ordered(),
    {
        let s = self.arena@;
        assert forall|i: int|
            #![trigger self.parent_of(i)]
            self.occupied(i) && self.parent_of(i) is Some implies self.occupied(
                self.parent_of(i).unwrap(),
            ) && le(self.payload(self.parent_of(i).unwrap()), self.payload(i)) by {
            let x = i as usize;
            assert(live(s, x));
            let p = s[i].parent;
            assert(live(s, p));
            assert(node_ok(s, p, Set::empty()));
            assert(s[p as int].kids@.contains(x));
        }
    }

    /// An empty heap.
    pub fn new() -> (heap: Self)
        ensures
            heap.wf(),
            heap.heap_ordered(),
            heap@ == Multiset::<T>::empty(),
    {
        let heap = FibonacciHeap {
            arena: Vec::new(),
            min: NIL,
            nodes: 0,
            free: Vec::new(),
            roots: Ghost(Seq::empty()),
            top: Ghost(0),
        };
        proof {
            heap.lemma_heap_ordered();
        }
        heap
    }

    /// Adds `value` to the heap.
    pub fn push(&mut self, value: T)
        requires
            total_order::<T>(),
            old(self).wf(),
        ensures
            final(self).wf(),
            final(self).heap_ordered(),
            final(self)@ == old(self)@.insert(value),
            final(self).pushed(*old(self), value),
    {
        let x = self.take_slot(value);
        let ghost t = self.arena@;
        self.insert_into_root_list(x, Ghost(Set::empty().insert(x)));
        proof {
            assert(Set::<usize>::empty().insert(x).remove(x) =~= Set::<usize>::empty());
            lemma_bag_same(t, self.arena@);
            lemma_weight_relinked(t, self.arena@);
            lemma_free_same(t, self.arena@, self.free@);
        }
        self.nodes += 1;
        proof {
            self.lemma_heap_ordered();
            self.lemma_pushed(*old(self), t, x, value);
        }
    }

    /// Puts a fresh node with the payload `value` into the arena, in the
    /// place that the free list names last or, where it names none, behind
    /// the last node.
    fn take_slot(&mut self, value: T) -> (x: usize)
        requires
            total_order::<T>(),
            old(self).wf(),
        ensures
            x == old(self).next_slot(),
            !live(old(self).arena@, x),
            x < final(self).arena@.len(),
            final(self).arena@.len() == old(self).arena@.len() || (final(self).arena@.len() == old(
                self,
            ).arena@.len() + 1 && x == old(self).arena@.len()),
            forall|i: int|
                0 <= i < old(self).arena@.len() && i != x ==> #[trigger] final(self).arena@[i] == old(
                    self,
                ).arena@[i],
            final(self).arena@[x as int].value == Some(value),
            final(self).arena@[x as int].degree == 0,
            !final(self).arena@[x as int].mark,
            final(self).arena@[x as int].parent == NIL,
            final(self).arena@[x as int].child == NIL,
            final(self).arena@[x as int].kids@.len() == 0,
            forest(
                final(self).arena@,
                final(self).roots@,
                Set::empty().insert(x),
                final(self).top@,
            ),
            min_ok(final(self).arena@, final(self).roots@, final(self).min),
            bag(final(self).arena@) == bag(old(self).arena@).insert(value),
            weight(final(self).arena@) == weight(old(self).arena@) + 1,
            free_ok(final(self).arena@, final(self).free@),
            final(self).min == old(self).min,
            final(self).roots == old(self).roots,
            final(self).top == old(self).top,
            final(self).nodes == old(self).nodes,
            old(self).nodes < usize::MAX,
    {
        let node = Node {
            value: Some(value),
            degree: 0,
            mark: false,
            parent: NIL,
            child: NIL,
            left: NIL,
            right: NIL,
            kids: Ghost(Seq::empty()),
            height: Ghost(0),
        };
        let ghost s = self.arena@;
        let ghost f = self.free@;
        let x = match self.free.pop() {
            Some(x) => {
                proof {
                    assert(f[f.len() - 1] == x);
                    assert(!live(s, x));
                    lemma_forest_revive(s, node, self.roots@, self.top@, x);
                }
                self.arena[x] = node;
                proof {
                    let t = self.arena@;
                    lemma_weight_update(s, x as int, node);
                    vstd::arithmetic::power2::lemma2_to64();
                    lemma_bag_take(t, s, x);
                    assert(bag(t) =~= bag(s).insert(value));
                    lemma_bag_len(t);
                    assert forall|i: int| 0 <= i < self.free@.len() implies !live(
                        t,
                        #[trigger] self.free@[i],
                    ) && self.free@[i] < t.len() by {
                        assert(self.free@[i] == f[i]);
                        assert(f[i] != f[f.len() - 1]);
                        assert(!live(s, f[i]));
                    }
                }
                x
            },
            None => {
                let x = self.arena.len();
                self.arena.push(node);
                let grown = self.arena.len();
                proof {
                    assert(grown == x + 1);
                    lemma_weight_push(s, node);
                    vstd::arithmetic::power2::lemma2_to64();
                    lemma_bag_push(s, node);
                    lemma_bag_len(self.arena@);
                    lemma_forest_grow(s, node, self.roots@, self.top@);
                    assert forall|i: int| 0 <= i < self.free@.len() implies !live(
                        self.arena@,
                        #[trigger] self.free@[i],
                    ) && self.free@[i] < self.arena@.len() by {
                        assert(!live(s, f[i]));
                    }
                }
                x
            },
        };
        proof {
            let t = self.arena@;
            let r = self.roots@;
            if r.len() > 0 {
                assert(r.contains(self.min));
                assert forall|y: usize| #[trigger] r.contains(y) implies le(
                    val(t, self.min),
                    val(t, y),
                ) by {
                    assert(live(s, y));
                    assert(live(s, self.min));
                    assert(le(val(s, self.min), val(s, y)));
                }
            }
        }
        x
    }

    /// What `push` does, said of the slots: see `pushed`.
    proof fn lemma_pushed(&self, before: Self, t: Seq<Node<T>>, x: usize, value: T)
        requires
            before.wf(),
            x == before.next_slot(),
            !live(before.arena@, x),
            x < t.len(),
            t.len() == before.arena@.len() || (t.len() == before.arena@.len() + 1 && x
                == before.arena@.len()),
            forall|i: int| 0 <= i < before.arena@.len() && i != x ==> #[trigger] t[i] == before.arena@[i],
            t[x as int].value == Some(value),
            t[x as int].degree == 0,
            !t[x as int].mark,
            t[x as int].parent == NIL,
            t[x as int].child == NIL,
            t[x as int].kids@.len() == 0,
            relinked(t, self.arena@),
            before.roots@.len() == 0 ==> self.arena@[x as int].right == x && self.arena@[x as int].left
                == x && forall|i: int|
                0 <= i < t.len() && i != x ==> (#[trigger] self.arena@[i]).left == t[i].left
                    && self.arena@[i].right == t[i].right,
            before.roots@.len() > 0 ==> spliced(t, self.arena@, before.min, x),
            self.min == (if before.roots@.len() == 0 || lt(value, val(before.arena@, before.min)) {
                x
            } else {
                before.min
            }),
        ensures
            self.pushed(before, value),
    {
        let s = before.arena@;
        let u = self.arena@;
        assert(kept(t[x as int], u[x as int]));
        assert forall|i: int| i != x implies #[trigger] self.occupied(i) == before.occupied(i) by {
            if 0 <= i < t.len() {
                assert(kept(t[i], u[i]));
                if i < s.len() {
                    assert(t[i] == s[i]);
                }
            }
        }
        assert forall|i: int| #[trigger] before.occupied(i) implies self.same_node(before, i) by {
            assert(t[i] == s[i]);
            assert(kept(t[i], u[i]));
        }
        if before.roots@.len() > 0 {
            let m = before.min;
            assert(before.roots@.contains(m));
            assert(live(s, m));
            assert(t[m as int] == s[m as int]);
            assert forall|i: int| #[trigger] before.occupied(i) implies (i != m ==> self.left_of(i)
                == before.left_of(i)) && (i != before.left_of(m as int) ==> self.right_of(i)
                == before.right_of(i)) by {
                assert(t[i] == s[i]);
            }
        } else {
            assert(before.min == NIL);
            assert forall|i: int| #[trigger] before.occupied(i) implies self.left_of(i)
                == before.left_of(i) && self.right_of(i) == before.right_of(i) by {
                assert(t[i] == s[i]);
            }
        }
    }

    /// Splices the loose node `y` into the root ring before the minimum, and
    /// makes it the minimum where its payload is smaller.
    fn insert_into_root_list(&mut self, y: usize, Ghost(loose): Ghost<Set<usize>>)
        requires
            total_order::<T>(),
            forest(old(self).arena@, old(self).roots@, loose, old(self).top@),
            min_ok(old(self).arena@, old(self).roots@, old(self).min),
            loose.contains(y),
            old(self).arena@[y as int].parent == NIL,
        ensures
            forest(final(self).arena@, final(self).roots@, loose.remove(y), final(self).top@),
            min_ok(final(self).arena@, final(self).roots@, final(self).min),
            relinked(old(self).arena@, final(self).arena@),
            final(self).top == old(self).top,
            final(self).nodes == old(self).nodes,
            final(self).free == old(self).free,
            forall|x: usize|
                final(self).roots@.contains(x) <==> old(self).roots@.contains(x) || x == y,
            forall|x: usize|
                loose.contains(x) && x != y ==> (#[trigger] final(self).arena@[x as int]).left
                    == old(self).arena@[x as int].left && final(self).arena@[x as int].right == old(
                    self,
                ).arena@[x as int].right,
            final(self).min == (if old(self).roots@.len() == 0 || lt(
                val(old(self).arena@, y),
                val(old(self).arena@, old(self).min),
            ) {
                y
            } else {
                old(self).min
            }),
            old(self).roots@.len() == 0 ==> final(self).arena@[y as int].right == y
                && final(self).arena@[y as int].left == y,
            old(self).roots@.len() > 0 ==> final(self).arena@[y as int].right == old(self).min
                && final(self).arena@[y as int].left == old(self).arena@[old(self).min as int].left
                && final(self).arena@[old(self).min as int].left == y,
            old(self).roots@.len() == 0 ==> forall|i: int|
                0 <= i < old(self).arena@.len() && i != y ==> (#[trigger] final(self).arena@[i]).left
                    == old(self).arena@[i].left && final(self).arena@[i].right == old(
                    self,
                ).arena@[i].right,
            old(self).roots@.len() > 0 ==> spliced(
                old(self).arena@,
                final(self).arena@,
                old(self).min,
                y,
            ),
    {
        let ghost s = self.arena@;
        let ghost r = self.roots@;
        proof {
            lemma_root_or_none(s, r, loose, self.top@, self.min, y);
        }
        if self.min == NIL {
            self.min = y;
            self.arena[y].left = y;
            self.arena[y].right = y;
            let ghost q = Seq::<usize>::empty().push(y);
            self.roots = Ghost(q);
            proof {
                lemma_first_root(s, self.arena@, r, loose, self.top@, y);
            }
        } else {
            let m = self.min;
            let ghost q = lemma_forest_rotate(s, r, loose, self.top@, m);
            proof {
                lemma_last_root(s, q, loose, self.top@, y);
            }
            splice_before(&mut self.arena, m, y);
            self.roots = Ghost(q.push(y));
            proof {
                lemma_next_root(s, self.arena@, r, q, loose, self.top@, y);
            }
            let smaller = less(
                self.arena[y].value.as_ref().unwrap(),
                self.arena[m].value.as_ref().unwrap(),
            );
            if smaller {
                self.min = y;
            }
            proof {
                lemma_min_with(s, self.arena@, r, q.push(y), m, y, self.min);
            }
        }
    }

    /// Takes the root `x` out of the root ring by joining its neighbours, and
    /// moves the minimum on to the right neighbour where `x` was the minimum.
    fn remove_from_root_list(&mut self, x: usize, Ghost(loose): Ghost<Set<usize>>)
        requires
            forest(old(self).arena@, old(self).roots@, loose, old(self).top@),
            old(self).roots@.contains(x),
            old(self).roots@.len() >= 2,
        ensures
            forest(final(self).arena@, final(self).roots@, loose.insert(x), final(self).top@),
            relinked(old(self).arena@, final(self).arena@),
            bridged(old(self).arena@, final(self).arena@, x),
            final(self).arena@[x as int] == old(self).arena@[x as int],
            final(self).top == old(self).top,
            final(self).nodes == old(self).nodes,
            final(self).free == old(self).free,
            final(self).roots@.len() == old(self).roots@.len() - 1,
            forall|u: usize|
                final(self).roots@.contains(u) <==> old(self).roots@.contains(u) && u != x,
            final(self).min == (if old(self).min == x {
                old(self).arena@[x as int].right
            } else {
                old(self).min
            }),
            old(self).roots@.contains(old(self).arena@[x as int].right),
            old(self).arena@[x as int].right != x,
    {
        let ghost s = self.arena@;
        let ghost r = self.roots@;
        let ghost q = lemma_forest_rotate(s, r, loose, self.top@, x);
        let ghost n = q.len() as int;
        proof {
            assert(q.contains(q[1]));
            assert(q.contains(q[n - 1]));
            assert(s[x as int].right == q[1]);
            assert(s[x as int].left == q[n - 1]);
            assert(live(s, x));
        }
        let rt = self.arena[x].right;
        bridge(&mut self.arena, x);
        if self.min == x {
            self.min = rt;
        }
        let ghost q2 = q.subrange(1, n);
        self.roots = Ghost(q2);
        proof {
            let t = self.arena@;
            lemma_ring_pop_front(s, t, q);
            assert forall|u: usize| q2.contains(u) <==> r.contains(u) && u != x by {
                if q2.contains(u) {
                    let i = choose|i: int| 0 <= i < q2.len() && q2[i] == u;
                    assert(q[i + 1] == u);
                }
                if r.contains(u) && u != x {
                    assert(q.contains(u));
                    let i = choose|i: int| 0 <= i < q.len() && q[i] == u;
                    assert(q2[i - 1] == u);
                }
            }
            assert forall|i: int|
                0 <= i < s.len() && ((#[trigger] t[i]).left != s[i].left || t[i].right
                    != s[i].right) implies q.contains(i as usize) || loose.contains(i as usize) by {
                assert(i == q[1] || i == q[n - 1]);
            }
            lemma_forest_relink(s, t, q, q2, loose, loose.insert(x), self.top@);
        }
    }

    /// Makes the root `y` the last child of the root `x`, whose payload is not
    /// greater.
    fn link(&mut self, y: usize, x: usize)
        requires
            total_order::<T>(),
            forest(old(self).arena@, old(self).roots@, Set::empty(), old(self).top@),
            old(self).roots@.contains(y),
            old(self).roots@.contains(x),
            x != y,
            le(val(old(self).arena@, x), val(old(self).arena@, y)),
            old(self).arena@[x as int].degree == old(self).arena@[y as int].degree,
        ensures
            forest(final(self).arena@, final(self).roots@, Set::empty(), final(self).top@),
            same_values(old(self).arena@, final(self).arena@),
            final(self).nodes == old(self).nodes,
            final(self).free == old(self).free,
            final(self).roots@.len() == old(self).roots@.len() - 1,
            forall|u: usize|
                final(self).roots@.contains(u) <==> old(self).roots@.contains(u) && u != y,
            forall|i: int|
                0 <= i < old(self).arena@.len() && i != x ==> (#[trigger] final(self).arena@[i]).degree
                    == old(self).arena@[i].degree,
            final(self).arena@[x as int].degree == old(self).arena@[x as int].degree + 1,
            final(self).arena@[y as int].parent == x,
            !final(self).arena@[y as int].mark,
            linked(old(self).arena@, final(self).arena@, y, x),
            weight(final(self).arena@) == weight(old(self).arena@),
    {
        let ghost s0 = self.arena@;
        proof {
            let r0 = self.roots@;
            let a = choose|a: int| 0 <= a < r0.len() && r0[a] == x;
            let b = choose|b: int| 0 <= b < r0.len() && r0[b] == y;
            assert(a != b);
        }
        self.remove_from_root_list(y, Ghost(Set::empty()));
        let ghost s = self.arena@;
        let ghost r = self.roots@;
        let ghost loose = Set::<usize>::empty().insert(y);
        let ghost kx = s[x as int].kids@;
        let ghost hx = if s[x as int].height@ > s[y as int].height@ {
            s[x as int].height@
        } else {
            s[y as int].height@ + 1
        };
        let ghost top2 = if self.top@ > hx {
            self.top@
        } else {
            hx
        };
        proof {
            assert(loose.contains(y));
            assert(live(s, y));
            assert(r.contains(x));
            assert(live(s, x));
            assert(node_ok(s, x, loose));
            assert(!kx.contains(y));
            assert(!kx.contains(x)) by {
                if kx.contains(x) {
                    assert(s[x as int].parent == x);
                }
            }
            let kx2 = kx.push(y);
            assert forall|i: int| 0 <= i < kx2.len() implies (#[trigger] kx2[i]) < s.len() by {
                if i < kx.len() {
                    assert(kx.contains(kx[i]));
                }
            }
            lemma_distinct_bound(kx2, s.len());
        }
        attach_child(&mut self.arena, y, x, Ghost(hx));
        proof {
            lemma_forest_attach(s, self.arena@, r, self.top@, top2, x, y);
            lemma_weight_relinked(s0, s);
            lemma_weight_attached(s, self.arena@, y, x);
            assert(relinked(s0, s) && bridged(s0, s, y) && s[y as int] == s0[y as int] && attached(
                s,
                self.arena@,
                y,
                x,
            ));
        }
        self.top = Ghost(top2);
    }

    /// Moves every child of the root `z` into the root ring.
    fn promote_children(&mut self, z: usize)
        requires
            total_order::<T>(),
            forest(old(self).arena@, old(self).roots@, Set::empty(), old(self).top@),
            min_ok(old(self).arena@, old(self).roots@, old(self).min),
            old(self).min == z,
            z != NIL,
        ensures
            forest(final(self).arena@, final(self).roots@, Set::empty(), final(self).top@),
            min_ok(final(self).arena@, final(self).roots@, final(self).min),
            final(self).min == z,
            final(self).roots@.contains(z),
            final(self).arena@[z as int].kids@.len() == 0,
            same_values(old(self).arena@, final(self).arena@),
            final(self).nodes == old(self).nodes,
            final(self).free == old(self).free,
            weight(final(self).arena@) == weight(old(self).arena@),
    {
        let ghost s0 = self.arena@;
        proof {
            assert(self.roots@.contains(z));
            assert(live(s0, z));
            assert(node_ok(s0, z, Set::empty()));
        }
        let n = self.arena[z].degree;
        let mut cur = self.arena[z].child;
        let ghost pending = s0[z as int].kids@;
        self.arena[z].child = NIL;
        self.arena[z].degree = 0;
        self.arena[z].kids = Ghost(Seq::empty());
        proof {
            lemma_forest_release(s0, self.arena@, self.roots@, self.top@, z);
            lemma_weight_one(s0, self.arena@, z as int);
            vstd::arithmetic::power2::lemma2_to64();
            assert forall|j: int| 0 <= j < n implies le(val(s0, z), val(s0, #[trigger] pending[j])) by {
                assert(pending.contains(pending[j]));
            }
            assert forall|j: int| 0 <= j < n implies self.arena@[(#[trigger] pending[j]) as int].parent
                == z && self.arena@[pending[j] as int].degree == j by {
                assert(pending.contains(pending[j]));
            }
            assert forall|j: int| 0 <= j < n implies (#[trigger] pending[j]) != z by {
                assert(pending.contains(pending[j]));
            }
        }
        let mut k: usize = 0;
        while k < n
            invariant
                total_order::<T>(),
                n == pending.len(),
                k <= n,
                pending.no_duplicates(),
                forest(self.arena@, self.roots@, tail_set(pending, k as int), self.top@),
                min_ok(self.arena@, self.roots@, self.min),
                self.min == z,
                self.roots@.contains(z),
                same_values(s0, self.arena@),
                self.nodes == old(self).nodes,
                self.free == old(self).free,
                self.arena@[z as int].kids@.len() == 0,
                k < n ==> cur == pending[k as int],
                forall|j: int|
                    k <= j < n - 1 ==> self.arena@[(#[trigger] pending[j]) as int].right
                        == pending[j + 1],
                forall|j: int| 0 <= j < n ==> le(val(s0, z), val(s0, #[trigger] pending[j])),
                forall|j: int|
                    k <= j < n ==> self.arena@[(#[trigger] pending[j]) as int].parent == z
                        && self.arena@[pending[j] as int].degree == j,
                weight(self.arena@) + pow2(n as nat) == weight(s0) + pow2(k as nat),
            decreases n - k,
        {
            let ghost loose = tail_set(pending, k as int);
            let ghost s1 = self.arena@;
            let ghost r1 = self.roots@;
            proof {
                assert(pending[k as int] == cur);
                assert(loose.contains(cur));
                assert(live(s1, cur));
            }
            let next = self.arena[cur].right;
            self.arena[cur].parent = NIL;
            proof {
                let s2 = self.arena@;
                lemma_forest_orphan(s1, s2, r1, loose, self.top@, cur);
                lemma_weight_one(s1, s2, cur as int);
                vstd::arithmetic::power2::lemma_pow2_unfold((k + 1) as nat);
                assert(term(s1[cur as int]) == 0);
                assert(term(s2[cur as int]) == pow2(k as nat));
                assert forall|x: usize| #[trigger] r1.contains(x) implies le(
                    val(s2, z),
                    val(s2, x),
                ) by {
                    assert(le(val(s1, z), val(s1, x)));
                }
            }
            let ghost s2 = self.arena@;
            self.insert_into_root_list(cur, Ghost(loose));
            proof {
                broadcast use group_order;
                let s3 = self.arena@;
                assert(val(s2, cur) == val(s0, cur));
                assert(val(s2, z) == val(s0, z));
                assert(le(val(s0, z), val(s0, pending[k as int])));
                assert(loose.remove(cur) =~= tail_set(pending, k + 1)) by {
                    assert forall|x: usize| loose.remove(cur).contains(x) implies tail_set(
                        pending,
                        k + 1,
                    ).contains(x) by {
                        let j = choose|j: int| k <= j < pending.len() && pending[j] == x;
                        assert(j != k);
                    }
                    assert forall|x: usize| tail_set(pending, k + 1).contains(x) implies loose.remove(
                        cur,
                    ).contains(x) by {
                        let j = choose|j: int| k + 1 <= j < pending.len() && pending[j] == x;
                        assert(pending[j] != pending[k as int]);
                    }
                }
                assert forall|j: int| k + 1 <= j < n - 1 implies s3[(#[trigger] pending[j]) as int].right
                    == pending[j + 1] by {
                    assert(loose.contains(pending[j]));
                    assert(pending[j] != pending[k as int]);
                    assert(s1[pending[j] as int].right == pending[j + 1]);
                }
                if k + 1 < n {
                    assert(s1[pending[k as int] as int].right == pending[k + 1]);
                }
                lemma_weight_relinked(s2, s3);
                assert forall|j: int| k + 1 <= j < n implies s3[(#[trigger] pending[j]) as int].parent
                    == z && s3[pending[j] as int].degree == j by {
                    assert(s1[pending[j] as int].parent == z && s1[pending[j] as int].degree == j);
                    assert(pending[j] != pending[k as int]);
                    assert(loose.contains(pending[j]));
                    assert(live(s1, pending[j]));
                    assert(s2[pending[j] as int] == s1[pending[j] as int]);
                    assert(kept(s2[pending[j] as int], s3[pending[j] as int]));
                }
            }
            cur = next;
            k += 1;
        }
        proof {
            assert(tail_set(pending, n as int) =~= Set::<usize>::empty());
        }
    }

    /// The root ring as a list, read from the minimum rightwards.
    fn snapshot_roots(&mut self) -> (snap: Vec<usize>)
        requires
            forest(old(self).arena@, old(self).roots@, Set::empty(), old(self).top@),
            old(self).roots@.contains(old(self).min),
        ensures
            forest(final(self).arena@, final(self).roots@, Set::empty(), final(self).top@),
            final(self).arena@ == old(self).arena@,
            final(self).min == old(self).min,
            final(self).nodes == old(self).nodes,
            final(self).free == old(self).free,
            snap@ == final(self).roots@,
            final(self).roots@.len() == old(self).roots@.len(),
    {
        let start = self.min;
        let ghost s = self.arena@;
        let ghost q = lemma_forest_rotate(s, self.roots@, Set::empty(), self.top@, start);
        self.roots = Ghost(q);
        let mut snap: Vec<usize> = Vec::new();
        snap.push(start);
        proof {
            assert(q.contains(q[0]));
            assert(live(s, start));
            if q.len() > 1 {
                assert(s[q[0] as int].right == q[1]);
            }
        }
        let mut cur = self.arena[start].right;
        while cur != start
            invariant
                self.arena@ == s,
                self.roots@ == q,
                self.min == start,
                self.nodes == old(self).nodes,
                self.free == old(self).free,
                self.top == old(self).top,
                forest(s, q, Set::empty(), self.top@),
                q[0] == start,
                1 <= snap.len() <= q.len(),
                snap@ == q.subrange(0, snap.len() as int),
                cur == (if snap.len() < q.len() {
                    q[snap.len() as int]
                } else {
                    q[0]
                }),
            decreases q.len() - snap.len(),
        {
            let ghost m = snap.len() as int;
            proof {
                assert(m < q.len());
                assert(q.contains(q[m]));
                assert(live(s, cur));
                if m + 1 < q.len() {
                    assert(s[q[m] as int].right == q[m + 1]);
                }
            }
            snap.push(cur);
            cur = self.arena[cur].right;
            proof {
                assert(snap@ =~= q.subrange(0, m + 1));
            }
        }
        proof {
            assert(snap@ =~= q);
        }
        snap
    }

    /// Enters the root `x0` into the degree table, linking it with the
    /// occupant of its slot for as long as that slot is taken.
    fn merge_into_table(&mut self, table: &mut Vec<Option<usize>>, x0: usize)
        requires
            total_order::<T>(),
            forest(old(self).arena@, old(self).roots@, Set::empty(), old(self).top@),
            table_ok(old(self).arena@, old(self).roots@, old(table)@),
            old(self).roots@.contains(x0),
            !in_table(old(table)@, x0),
        ensures
            forest(final(self).arena@, final(self).roots@, Set::empty(), final(self).top@),
            table_ok(final(self).arena@, final(self).roots@, final(table)@),
            same_values(old(self).arena@, final(self).arena@),
            final(self).nodes == old(self).nodes,
            final(self).free == old(self).free,
            weight(final(self).arena@) == weight(old(self).arena@),
            final(self).roots@.len() >= 1,
            forall|u: usize| #[trigger] final(self).roots@.contains(u) ==> old(self).roots@.contains(u),
            forall|u: usize| #[trigger]
                final(self).roots@.contains(u) ==> in_table(final(table)@, u) || (!in_table(
                    old(table)@,
                    u,
                ) && u != x0),
            forall|u: usize|
                #[trigger] old(self).roots@.contains(u) && !in_table(old(table)@, u) && u != x0
                    ==> final(self).roots@.contains(u) && !in_table(final(table)@, u),
    {
        let ghost s0 = self.arena@;
        let ghost r0 = self.roots@;
        let ghost t0 = table@;
        let mut x = x0;
        proof {
            assert(live(s0, x));
        }
        let mut d = self.arena[x].degree;
        let mut occupied = d < table.len() && table[d].is_some();
        while occupied
            invariant
                total_order::<T>(),
                forest(self.arena@, self.roots@, Set::empty(), self.top@),
                table_ok(self.arena@, self.roots@, table@),
                self.roots@.contains(x),
                !in_table(table@, x),
                d == self.arena@[x as int].degree,
                occupied == (d < table.len() && table@[d as int] is Some),
                same_values(s0, self.arena@),
                self.nodes == old(self).nodes,
                self.free == old(self).free,
                weight(self.arena@) == weight(s0),
                forall|u: usize| #[trigger] self.roots@.contains(u) ==> r0.contains(u),
                forall|u: usize| #[trigger]
                    self.roots@.contains(u) ==> in_table(table@, u) || u == x || (!in_table(t0, u)
                        && u != x0),
                forall|u: usize|
                    #[trigger] r0.contains(u) && !in_table(t0, u) && u != x0 ==> self.roots@.contains(
                        u,
                    ) && !in_table(table@, u) && u != x,
            decreases self.roots@.len(),
        {
            let ghost s1 = self.arena@;
            let ghost r1 = self.roots@;
            let ghost t1 = table@;
            let y = table[d].unwrap();
            proof {
                assert(t1[d as int] == Some(y));
                assert(in_table(t1, y));
                assert(r1.contains(y));
                assert(live(s1, y));
                assert(live(s1, x));
            }
            let smaller = less(
                self.arena[y].value.as_ref().unwrap(),
                self.arena[x].value.as_ref().unwrap(),
            );
            let w = if smaller { y } else { x };
            let l = if smaller { x } else { y };
            proof {
                broadcast use group_order;
                assert(le(val(s1, w), val(s1, l)));
            }
            self.link(l, w);
            table[d] = None;
            proof {
                let s2 = self.arena@;
                let r2 = self.roots@;
                let t2 = table@;
                assert forall|e: int| 0 <= e < t2.len() && (#[trigger] t2[e]) is Some implies r2.contains(
                    t2[e].unwrap(),
                ) && s2[t2[e].unwrap() as int].degree == e by {
                    assert(t1[e] == t2[e]);
                    let u = t1[e].unwrap();
                    assert(r1.contains(u) && s1[u as int].degree == e);
                    assert(u != y);
                    assert(in_table(t1, u));
                }
                assert forall|u: usize| in_table(t2, u) implies in_table(t1, u) by {
                    let e = choose|e: int| 0 <= e < t2.len() && t2[e] == Some(u);
                    assert(t1[e] == Some(u));
                }
                assert forall|u: usize| in_table(t1, u) && u != y implies in_table(t2, u) by {
                    let e = choose|e: int| 0 <= e < t1.len() && t1[e] == Some(u);
                    assert(t2[e] == Some(u));
                }
                assert(!in_table(t2, y)) by {
                    if in_table(t2, y) {
                        let e = choose|e: int| 0 <= e < t2.len() && t2[e] == Some(y);
                        assert(t1[e] == Some(y));
                        assert(s1[y as int].degree == e);
                    }
                }
            }
            x = w;
            d = d + 1;
            occupied = d < table.len() && table[d].is_some();
        }
        let ghost s2 = self.arena@;
        let ghost r2 = self.roots@;
        let ghost t2 = table@;
        ensure_slot(table, d);
        let ghost t3 = table@;
        table[d] = Some(x);
        proof {
            let t4 = table@;
            assert(t3[d as int] is None);
            assert forall|u: usize| in_table(t4, u) <==> in_table(t2, u) || u == x by {
                if in_table(t4, u) && u != x {
                    let e = choose|e: int| 0 <= e < t4.len() && t4[e] == Some(u);
                    assert(t3[e] == Some(u));
                    assert(t2[e] == Some(u));
                }
                if in_table(t2, u) {
                    let e = choose|e: int| 0 <= e < t2.len() && t2[e] == Some(u);
                    assert(t3[e] == Some(u));
                    assert(e != d);
                    assert(t4[e] == Some(u));
                }
                assert(t4[d as int] == Some(x));
            }
            assert forall|e: int| 0 <= e < t4.len() && (#[trigger] t4[e]) is Some implies r2.contains(
                t4[e].unwrap(),
            ) && s2[t4[e].unwrap() as int].degree == e by {
                if e != d {
                    assert(t3[e] == t4[e]);
                    assert(t2[e] == t3[e]);
                }
            }
        }
    }

    /// Spreads out the degree table anew as the root ring, and finds the
    /// minimum among its nodes.
    fn rebuild(&mut self, table: &Vec<Option<usize>>)
        requires
            total_order::<T>(),
            forest(old(self).arena@, old(self).roots@, Set::empty(), old(self).top@),
            table_ok(old(self).arena@, old(self).roots@, table@),
            forall|u: usize| #[trigger] old(self).roots@.contains(u) ==> in_table(table@, u),
            old(self).roots@.len() >= 1,
        ensures
            forest(final(self).arena@, final(self).roots@, Set::empty(), final(self).top@),
            min_ok(final(self).arena@, final(self).roots@, final(self).min),
            relinked(old(self).arena@, final(self).arena@),
            final(self).nodes == old(self).nodes,
            final(self).free == old(self).free,
            final(self).roots@.len() >= 1,
            one_per_degree(final(self).arena@, final(self).roots@),
    {
        let ghost s0 = self.arena@;
        let ghost r0 = self.roots@;
        self.min = NIL;
        self.roots = Ghost(Seq::empty());
        proof {
            lemma_forest_scatter(s0, r0, self.top@);
            assert(tail_set(r0, 0) =~= slots_from(table@, 0)) by {
                assert forall|u: usize| tail_set(r0, 0).contains(u) implies slots_from(
                    table@,
                    0,
                ).contains(u) by {
                    assert(r0.contains(u));
                    assert(in_table(table@, u));
                }
                assert forall|u: usize| slots_from(table@, 0).contains(u) implies tail_set(
                    r0,
                    0,
                ).contains(u) by {
                    let e = choose|e: int| 0 <= e < table@.len() && table@[e] == Some(u);
                    assert(r0.contains(table@[e].unwrap()));
                    let j = choose|j: int| 0 <= j < r0.len() && r0[j] == u;
                }
            }
        }
        let mut d: usize = 0;
        while d < table.len()
            invariant
                total_order::<T>(),
                d <= table.len(),
                forest(self.arena@, self.roots@, slots_from(table@, d as int), self.top@),
                min_ok(self.arena@, self.roots@, self.min),
                relinked(s0, self.arena@),
                self.nodes == old(self).nodes,
                self.free == old(self).free,
                table_ok(s0, r0, table@),
                forest(s0, r0, Set::empty(), old(self).top@),
                forall|u: usize| #[trigger] self.roots@.contains(u) ==> r0.contains(u),
                forall|u: usize| #[trigger] r0.contains(u) ==> in_table(table@, u),
                forall|u: usize| #[trigger]
                    r0.contains(u) ==> self.roots@.contains(u) || slots_from(
                        table@,
                        d as int,
                    ).contains(u),
            decreases table.len() - d,
        {
            let ghost loose = slots_from(table@, d as int);
            let ghost r1 = self.roots@;
            let slot = table[d];
            match slot {
                Some(y) => {
                    proof {
                        assert(table@[d as int] == Some(y));
                        assert(loose.contains(y));
                        assert(r0.contains(table@[d as int].unwrap()));
                        assert(s0[y as int].parent == NIL);
                    }
                    self.insert_into_root_list(y, Ghost(loose));
                    proof {
                        assert(loose.remove(y) =~= slots_from(table@, d + 1)) by {
                            assert forall|u: usize| loose.remove(y).contains(u) implies slots_from(
                                table@,
                                d + 1,
                            ).contains(u) by {
                                let e = choose|e: int|
                                    d <= e < table@.len() && table@[e] == Some(u);
                                assert(e != d);
                            }
                            assert forall|u: usize|
                                slots_from(table@, d + 1).contains(u) implies loose.remove(
                                y,
                            ).contains(u) by {
                                let e = choose|e: int|
                                    d + 1 <= e < table@.len() && table@[e] == Some(u);
                                assert(s0[table@[e].unwrap() as int].degree == e);
                                assert(s0[table@[d as int].unwrap() as int].degree == d);
                            }
                        }
                        assert forall|u: usize| #[trigger] r0.contains(u) implies self.roots@.contains(
                            u,
                        ) || slots_from(table@, d + 1).contains(u) by {
                            if !r1.contains(u) && u != y {
                                assert(loose.contains(u));
                                assert(loose.remove(y).contains(u));
                            }
                        }
                    }
                },
                None => {
                    proof {
                        assert(loose =~= slots_from(table@, d + 1)) by {
                            assert forall|u: usize| loose.contains(u) implies slots_from(
                                table@,
                                d + 1,
                            ).contains(u) by {
                                let e = choose|e: int|
                                    d <= e < table@.len() && table@[e] == Some(u);
                                assert(e != d);
                            }
                        }
                    }
                },
            }
            d += 1;
        }
        proof {
            assert(slots_from(table@, table@.len() as int) =~= Set::<usize>::empty());
            assert(r0.contains(r0[0]));
            assert(self.roots@.contains(r0[0]));
            let t = self.arena@;
            assert forall|u: usize, v: usize|
                #![trigger self.roots@.contains(u), self.roots@.contains(v)]
                self.roots@.contains(u) && self.roots@.contains(v) && u != v implies t[u as int].degree
                != t[v as int].degree by {
                assert(r0.contains(u) && r0.contains(v));
                assert(in_table(table@, u) && in_table(table@, v));
                let du = choose|d: int| 0 <= d < table@.len() && #[trigger] table@[d] == Some(u);
                let dv = choose|d: int| 0 <= d < table@.len() && #[trigger] table@[d] == Some(v);
                assert(s0[table@[du].unwrap() as int].degree == du);
                assert(s0[table@[dv].unwrap() as int].degree == dv);
                assert(live(s0, u) && live(s0, v));
                assert(kept(s0[u as int], t[u as int]));
                assert(kept(s0[v as int], t[v as int]));
            }
        }
    }

    /// Links roots of equal degree until no two roots share a degree, then
    /// rebuilds the root ring and finds the minimum.
    fn consolidate(&mut self)
        requires
            total_order::<T>(),
            forest(old(self).arena@, old(self).roots@, Set::empty(), old(self).top@),
            old(self).roots@.contains(old(self).min),
        ensures
            forest(final(self).arena@, final(self).roots@, Set::empty(), final(self).top@),
            min_ok(final(self).arena@, final(self).roots@, final(self).min),
            same_values(old(self).arena@, final(self).arena@),
            final(self).nodes == old(self).nodes,
            final(self).free == old(self).free,
            weight(final(self).arena@) == weight(old(self).arena@),
            final(self).roots@.len() >= 1,
            one_per_degree(final(self).arena@, final(self).roots@),
    {
        let ghost s0 = self.arena@;
        let snap = self.snapshot_roots();
        let mut table: Vec<Option<usize>> = Vec::new();
        let mut i: usize = 0;
        proof {
            assert forall|u: usize| #[trigger] self.roots@.contains(u) implies tail_set(
                snap@,
                0,
            ).contains(u) by {
                let j = choose|j: int| 0 <= j < snap@.len() && snap@[j] == u;
            }
            assert forall|j: int| 0 <= j < snap.len() implies self.roots@.contains(
                #[trigger] snap@[j],
            ) && !in_table(table@, snap@[j]) by {}
        }
        while i < snap.len()
            invariant
                total_order::<T>(),
                i <= snap.len(),
                forest(self.arena@, self.roots@, Set::empty(), self.top@),
                table_ok(self.arena@, self.roots@, table@),
                same_values(s0, self.arena@),
                self.nodes == old(self).nodes,
                self.free == old(self).free,
                weight(self.arena@) == weight(s0),
                snap@.no_duplicates(),
                self.roots@.len() >= 1,
                forall|j: int|
                    i <= j < snap.len() ==> self.roots@.contains(#[trigger] snap@[j]) && !in_table(
                        table@,
                        snap@[j],
                    ),
                forall|u: usize| #[trigger]
                    self.roots@.contains(u) ==> in_table(table@, u) || tail_set(
                        snap@,
                        i as int,
                    ).contains(u),
            decreases snap.len() - i,
        {
            let ghost r1 = self.roots@;
            let ghost t1 = table@;
            let x0 = snap[i];
            self.merge_into_table(&mut table, x0);
            proof {
                assert forall|j: int| i + 1 <= j < snap.len() implies self.roots@.contains(
                    #[trigger] snap@[j],
                ) && !in_table(table@, snap@[j]) by {
                    assert(snap@[j] != snap@[i as int]);
                    assert(r1.contains(snap@[j]));
                }
                assert forall|u: usize| #[trigger] self.roots@.contains(u) implies in_table(
                    table@,
                    u,
                ) || tail_set(snap@, i + 1).contains(u) by {
                    if !in_table(table@, u) {
                        assert(!in_table(t1, u) && u != x0);
                        assert(r1.contains(u));
                        assert(tail_set(snap@, i as int).contains(u));
                        let j = choose|j: int| i <= j < snap@.len() && snap@[j] == u;
                        assert(j != i);
                    }
                }
            }
            i += 1;
        }
        proof {
            assert forall|u: usize| #[trigger] self.roots@.contains(u) implies in_table(table@, u) by {
                if tail_set(snap@, i as int).contains(u) {
                    let j = choose|j: int| i <= j < snap@.len() && snap@[j] == u;
                }
            }
        }
        let ghost s1 = self.arena@;
        self.rebuild(&table);
        proof {
            lemma_weight_relinked(s1, self.arena@);
        }
    }

    /// Removes the least payload and returns it, or returns `None` where the
    /// heap is empty.
    pub fn pop(&mut self) -> (r: Option<T>)
        requires
            total_order::<T>(),
            old(self).wf(),
        ensures
            final(self).wf(),
            final(self).heap_ordered(),
            old(self)@.len() == 0 ==> r is None && final(self)@ == old(self)@,
            old(self)@.len() > 0 ==> r is Some && is_least(r.unwrap(), old(self)@) && final(self)@
                == old(self)@.remove(r.unwrap()),
            r == (if old(self)@.len() == 0 {
                None
            } else {
                Some(least(old(self)@))
            }),
            final(self)@ == remainder(old(self)@, 1),
            final(self).one_tree_per_degree(),
    {
        if self.min == NIL {
            proof {
                if self.roots@.len() > 0 {
                    assert(self.roots@.contains(self.min));
                    assert(live(self.arena@, self.min));
                }
                lemma_no_roots(self.arena@, self.roots@, self.top@);
                self.lemma_heap_ordered();
                assert forall|i: int| !self.occupied(i) by {
                    if self.occupied(i) {
                        lemma_bag_live(self.arena@, i as usize);
                    }
                }
            }
            return None;
        }
        let z = self.min;
        let ghost s0 = self.arena@;
        proof {
            assert(self.roots@.len() > 0);
            lemma_min_least(s0, self.roots@, self.top@, z);
            lemma_bag_live(s0, z);
            lemma_least_exists(bag(s0));
            lemma_least_unique(val(s0, z), least(bag(s0)), bag(s0));
            assert(remainder(bag(s0).remove(least(bag(s0))), 0) == bag(s0).remove(least(bag(s0))));
        }
        self.promote_children(z);
        let ghost s1 = self.arena@;
        proof {
            lemma_bag_same(s0, s1);
            lemma_free_same(s0, s1, self.free@);
            assert(live(s1, z));
            lemma_ring_alone(s1, self.roots@, z);
        }
        let rt = self.arena[z].right;
        if rt == z {
            let v = self.take_sole(z);
            proof {
                self.lemma_heap_ordered();
                assert forall|i: int| !self.occupied(i) by {}
            }
            v
        } else {
            self.min = rt;
            let v = self.take_root(z);
            let ghost s3 = self.arena@;
            self.consolidate();
            proof {
                lemma_bag_same(s3, self.arena@);
                lemma_free_same(s3, self.arena@, self.free@);
            }
            self.nodes = self.nodes - 1;
            proof {
                self.lemma_heap_ordered();
                assert forall|i: int, j: int|
                    #![trigger self.occupied(i), self.occupied(j)]
                    self.occupied(i) && self.occupied(j) && i != j && self.parent_of(i) is None
                        && self.parent_of(j) is None implies self.degree_of(i) != self.degree_of(
                    j,
                ) by {
                    assert(live(self.arena@, i as usize));
                    assert(live(self.arena@, j as usize));
                    assert(self.roots@.contains(i as usize));
                    assert(self.roots@.contains(j as usize));
                }
            }
            v
        }
    }

    /// Takes the payload out of the node `z`, which is the only node of the
    /// heap, and empties the arena and the free list.
    fn take_sole(&mut self, z: usize) -> (v: Option<T>)
        requires
            total_order::<T>(),
            forest(old(self).arena@, old(self).roots@, Set::empty(), old(self).top@),
            old(self).roots@.len() == 1,
            old(self).roots@[0] == z,
            old(self).arena@[z as int].kids@.len() == 0,
        ensures
            final(self).wf(),
            final(self)@ == Multiset::<T>::empty(),
            final(self).arena@.len() == 0,
            v == Some(val(old(self).arena@, z)),
            bag(old(self).arena@).contains(val(old(self).arena@, z)),
            bag(old(self).arena@).remove(val(old(self).arena@, z)) == final(self)@,
    {
        let ghost s1 = self.arena@;
        let ghost r1 = self.roots@;
        proof {
            assert(r1.contains(r1[0]));
            assert(live(s1, z));
        }
        let v = self.arena[z].value.take();
        proof {
            let t = self.arena@;
            lemma_bag_take(s1, t, z);
            assert forall|x: usize| !live(t, x) by {
                if live(t, x) {
                    assert(live(s1, x));
                    lemma_lone_root(s1, r1, self.top@, x);
                }
            }
            lemma_bag_dead(t);
        }
        self.arena.clear();
        self.free.clear();
        self.min = NIL;
        self.roots = Ghost(Seq::empty());
        self.nodes = 0;
        v
    }

    /// Takes the root `z`, which has no children and is not the minimum, out
    /// of the root ring, takes its payload out of it, and puts its place on
    /// the free list.
    fn take_root(&mut self, z: usize) -> (v: Option<T>)
        requires
            total_order::<T>(),
            forest(old(self).arena@, old(self).roots@, Set::empty(), old(self).top@),
            old(self).roots@.contains(z),
            old(self).roots@.len() >= 2,
            old(self).arena@[z as int].kids@.len() == 0,
            old(self).min == old(self).arena@[z as int].right,
            free_ok(old(self).arena@, old(self).free@),
        ensures
            forest(final(self).arena@, final(self).roots@, Set::empty(), final(self).top@),
            final(self).roots@.contains(final(self).min),
            v == Some(val(old(self).arena@, z)),
            bag(old(self).arena@).contains(val(old(self).arena@, z)),
            bag(final(self).arena@) == bag(old(self).arena@).remove(val(old(self).arena@, z)),
            free_ok(final(self).arena@, final(self).free@),
            final(self).nodes == old(self).nodes,
            weight(final(self).arena@) + 1 == weight(old(self).arena@),
    {
        let ghost s1 = self.arena@;
        let ghost f = self.free@;
        proof {
            assert(live(s1, z));
            assert(node_ok(s1, z, Set::empty()));
        }
        self.remove_from_root_list(z, Ghost(Set::empty()));
        let ghost s2 = self.arena@;
        let v = self.arena[z].value.take();
        proof {
            let t = self.arena@;
            lemma_bag_same(s1, s2);
            lemma_bag_take(s2, t, z);
            lemma_forest_bury(s2, t, self.roots@, self.top@, z);
            lemma_weight_relinked(s1, s2);
            lemma_weight_one(s2, t, z as int);
            vstd::arithmetic::power2::lemma2_to64();
            assert(term(s2[z as int]) == 1);
            assert(term(t[z as int]) == 0);
        }
        let ghost s3 = self.arena@;
        self.free.push(z);
        proof {
            assert forall|i: int| 0 <= i < f.len() implies f[i] != z && !live(s3, #[trigger] f[i]) by {
                assert(!live(s1, f[i]));
                assert(kept(s1[f[i] as int], s2[f[i] as int]));
            }
            assert(self.free@.no_duplicates());
            assert forall|i: int| 0 <= i < self.free@.len() implies !live(
                s3,
                #[trigger] self.free@[i],
            ) && self.free@[i] < s3.len() by {
                if i < f.len() {
                    assert(self.free@[i] == f[i]);
                }
            }
        }
        v
    }

    /// Whether the heap holds no payload.
    pub fn is_empty(&self) -> (r: bool)
        requires
            self.wf(),
        ensures
            r == (self@.len() == 0),
    {
        self.nodes == 0
    }

    /// The least payload, which stays in the heap.
    pub fn peek(&self) -> (r: Option<&T>)
        requires
            total_order::<T>(),
            self.wf(),
        ensures
            self@.len() == 0 ==> r is None,
            self@.len() > 0 ==> r is Some && is_least(*r.unwrap(), self@) && *r.unwrap() == least(
                self@,
            ),
    {
        if self.min == NIL {
            proof {
                if self.roots@.len() > 0 {
                    assert(self.roots@.contains(self.min));
                    assert(live(self.arena@, self.min));
                }
                lemma_no_roots(self.arena@, self.roots@, self.top@);
            }
            None
        } else {
            proof {
                lemma_min_least(self.arena@, self.roots@, self.top@, self.min);
                lemma_bag_live(self.arena@, self.min);
                lemma_least_exists(self@);
                lemma_least_unique(val(self.arena@, self.min), least(self@), self@);
            }
            self.arena[self.min].value.as_ref()
        }
    }
}

} // verus!
