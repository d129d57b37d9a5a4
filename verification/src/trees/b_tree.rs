//! A B-tree of minimum degree `t`: every node holds up to `2 t - 1` keys in
//! ascending order, and a node that is no leaf has one child before each key
//! and one behind the last.
use vstd::prelude::*;
use crate::order::{lt, total_order, group_order, compare, Rank};
use crate::trees::{targets, strictly_ascending};

verus! {

/// A set of keys of type `T`, kept in a B-tree.
#[derive(Debug)]
pub struct BTree<T> {
    root: Option<Box<Node<T>>>,
    t: usize,
}

#[derive(Debug)]
struct Node<T> {
    keys: Vec<T>,
    children: Vec<Node<T>>,
    leaf: bool,
}

/// The keys in the first `n` of the trees `kids`.
spec fn kids_elems<T>(kids: Seq<Node<T>>, n: nat) -> Set<T>
    decreases kids, 0int, n,
{
    if n == 0 || n > kids.len() {
        Set::empty()
    } else {
        kids_elems(kids, (n - 1) as nat).union(elems(kids[n - 1]))
    }
}

/// The keys in the tree at `node`.
spec fn elems<T>(node: Node<T>) -> Set<T>
    decreases node, 1int,
{
    node.keys@.to_set().union(kids_elems(node.children@, node.children@.len()))
}

/// The keys of `child`, the child at position `i` below a node with the keys
/// `keys`, lie between the keys at `i - 1` and at `i`.
spec fn between<T: Ord>(child: Node<T>, keys: Seq<T>, i: int) -> bool {
    forall|x: T| #[trigger]
        elems(child).contains(x) ==> (i > 0 ==> lt(keys[i - 1], x)) && (i < keys.len() ==> lt(
            x,
            keys[i],
        ))
}

/// Search order and shape: keys ascending, at most `2 t - 1` of them; no
/// children at a leaf, which stands `h == 0` levels above the leaves, and one
/// more than keys elsewhere, each one level further down and with at least
/// `t - 1` keys; and the keys of each child between the keys beside it.
spec fn valid<T: Ord>(node: Node<T>, t: usize, h: nat) -> bool
    decreases node,
{
    &&& strictly_ascending(node.keys@)
    &&& node.keys@.len() <= 2 * t - 1
    &&& (if node.leaf {
        h == 0 && node.children@.len() == 0
    } else {
        h > 0 && node.children@.len() == node.keys@.len() + 1
    })
    &&& forall|i: int|
        0 <= i < node.children@.len() ==> valid(#[trigger] node.children@[i], t, (h - 1) as nat)
            && between(node.children@[i], node.keys@, i) && node.children@[i].keys@.len() >= t - 1
}

/// The keys of the tree at `node` from left to right.
spec fn flat<T>(node: Node<T>) -> Seq<T>
    decreases node, 1int,
{
    if node.children@.len() <= node.keys@.len() {
        node.keys@
    } else {
        flat_before(node, node.keys@.len()) + flat(node.children@[node.keys@.len() as int])
    }
}

/// The keys of the tree at `node` from left to right up to the key at
/// position `n - 1`, that key included.
spec fn flat_before<T>(node: Node<T>, n: nat) -> Seq<T>
    decreases node, 0int, n,
{
    if n == 0 || n > node.keys@.len() || n > node.children@.len() {
        Seq::empty()
    } else {
        (flat_before(node, (n - 1) as nat) + flat(node.children@[n - 1])).push(node.keys@[n - 1])
    }
}

/// A key is among the keys of the first `n` children exactly when it is a
/// key of one of them.
proof fn lemma_kids_elems<T>(kids: Seq<Node<T>>, n: nat, x: T)
    requires
        n <= kids.len(),
    ensures
        kids_elems(kids, n).contains(x) <==> exists|j: int|
            0 <= j < n && #[trigger] elems(kids[j]).contains(x),
    decreases n,
{
    if n > 0 {
        lemma_kids_elems(kids, (n - 1) as nat, x);
        if kids_elems(kids, n).contains(x) {
            if elems(kids[n - 1]).contains(x) {
            } else {
                let j = choose|j: int| 0 <= j < n - 1 && #[trigger] elems(kids[j]).contains(x);
                assert(elems(kids[j]).contains(x));
            }
        }
    }
}

/// A key is in the tree exactly when it is a key of the node or in the tree
/// of one of its children.
proof fn lemma_elems<T>(node: Node<T>, x: T)
    ensures
        elems(node).contains(x) <==> node.keys@.contains(x) || exists|j: int|
            0 <= j < node.children@.len() && #[trigger] elems(node.children@[j]).contains(x),
{
    lemma_kids_elems(node.children@, node.children@.len(), x);
}

/// Where `key` stands among the ascending `keys`: its position where it is
/// one of them, and else the position of the first key ordered after it.
fn search_keys<T: Ord>(keys: &Vec<T>, key: &T) -> (r: (bool, usize))
    requires
        total_order::<T>(),
        strictly_ascending(keys@),
    ensures
        r.1 <= keys@.len(),
        r.0 ==> r.1 < keys@.len() && keys@[r.1 as int] == *key,
        !r.0 ==> !keys@.contains(*key),
        forall|j: int| 0 <= j < r.1 ==> lt(keys@[j], *key),
        forall|j: int| r.1 <= j < keys@.len() && !(r.0 && j == r.1) ==> lt(*key, keys@[j]),
{
    let mut lo: usize = 0;
    let mut hi: usize = keys.len();
    while lo < hi
        invariant
            total_order::<T>(),
            strictly_ascending(keys@),
            lo <= hi <= keys@.len(),
            forall|j: int| 0 <= j < lo ==> lt(keys@[j], *key),
            forall|j: int| hi <= j < keys@.len() ==> lt(*key, keys@[j]),
        decreases hi - lo,
    {
        let mid = lo + (hi - lo) / 2;
        match compare(key, &keys[mid]) {
            Rank::Same => {
                proof {
                    broadcast use group_order;
                    assert forall|j: int| 0 <= j < mid implies lt(keys@[j], *key) by {
                        assert(lt(keys@[j], keys@[mid as int]));
                    }
                    assert forall|j: int| mid < j < keys@.len() implies lt(*key, keys@[j]) by {
                        assert(lt(keys@[mid as int], keys@[j]));
                    }
                }
                return (true, mid);
            },
            Rank::Before => {
                proof {
                    broadcast use group_order;
                    assert forall|j: int| mid <= j < keys@.len() implies lt(*key, keys@[j]) by {
                        if j > mid {
                            assert(lt(keys@[mid as int], keys@[j]));
                        }
                    }
                }
                hi = mid;
            },
            Rank::After => {
                proof {
                    broadcast use group_order;
                    assert forall|j: int| 0 <= j < mid + 1 implies lt(keys@[j], *key) by {
                        if j < mid {
                            assert(lt(keys@[j], keys@[mid as int]));
                        }
                    }
                }
                lo = mid + 1;
            },
        }
    }
    proof {
        broadcast use group_order;
        if keys@.contains(*key) {
            let j = choose|j: int| 0 <= j < keys@.len() && keys@[j] == *key;
            if j < lo {
                assert(lt(keys@[j], *key));
            } else {
                assert(lt(*key, keys@[j]));
            }
        }
    }
    (false, lo)
}

/// What the two halves of a full node hold, and where they stand to the key
/// in its middle.
proof fn lemma_halves<T: Ord>(c: Node<T>, left: Node<T>, right: Node<T>, t: usize, h: nat)
    requires
        total_order::<T>(),
        1 <= t,
        valid(c, t, h),
        c.keys@.len() == 2 * t - 1,
        left.keys@ == c.keys@.subrange(0, t - 1),
        right.keys@ == c.keys@.subrange(t as int, 2 * t - 1),
        left.leaf == c.leaf,
        right.leaf == c.leaf,
        c.leaf ==> left.children@.len() == 0 && right.children@.len() == 0,
        !c.leaf ==> left.children@ == c.children@.subrange(0, t as int) && right.children@
            == c.children@.subrange(t as int, 2 * t),
    ensures
        valid(left, t, h),
        valid(right, t, h),
        elems(c).contains(c.keys@[t - 1]),
        forall|x: T|
            #![trigger elems(c).contains(x)]
            elems(c).contains(x) <==> elems(left).contains(x) || x == c.keys@[t - 1] || elems(
                right,
            ).contains(x),
        forall|x: T| #[trigger] elems(left).contains(x) ==> lt(x, c.keys@[t - 1]),
        forall|x: T| #[trigger] elems(right).contains(x) ==> lt(c.keys@[t - 1], x),
{
    broadcast use group_order;
    let k = c.keys@;
    let m = k[t - 1];
    assert forall|i: int| 0 <= i < left.children@.len() implies valid(
        #[trigger] left.children@[i],
        t,
        (h - 1) as nat,
    ) && between(left.children@[i], left.keys@, i) by {
        assert(left.children@[i] == c.children@[i]);
        assert(valid(c.children@[i], t, (h - 1) as nat));
        assert(between(c.children@[i], k, i));
    }
    assert forall|i: int| 0 <= i < right.children@.len() implies valid(
        #[trigger] right.children@[i],
        t,
        (h - 1) as nat,
    ) && between(right.children@[i], right.keys@, i) by {
        assert(right.children@[i] == c.children@[t + i]);
        assert(valid(c.children@[t + i], t, (h - 1) as nat));
        assert(between(c.children@[t + i], k, t + i));
    }
    assert forall|x: T| #[trigger] elems(left).contains(x) implies lt(x, m) && elems(c).contains(
        x,
    ) by {
        lemma_elems(left, x);
        lemma_elems(c, x);
        if left.keys@.contains(x) {
            let j = choose|j: int| 0 <= j < left.keys@.len() && left.keys@[j] == x;
            assert(k[j] == x);
            assert(lt(k[j], k[t - 1]));
        } else {
            let j = choose|j: int|
                0 <= j < left.children@.len() && #[trigger] elems(left.children@[j]).contains(x);
            assert(left.children@[j] == c.children@[j]);
            assert(between(c.children@[j], k, j));
            assert(elems(c.children@[j]).contains(x));
            assert(lt(x, k[j]));
            if j < t - 1 {
                assert(lt(k[j], k[t - 1]));
            }
        }
    }
    assert forall|x: T| #[trigger] elems(right).contains(x) implies lt(m, x) && elems(c).contains(
        x,
    ) by {
        lemma_elems(right, x);
        lemma_elems(c, x);
        if right.keys@.contains(x) {
            let j = choose|j: int| 0 <= j < right.keys@.len() && right.keys@[j] == x;
            assert(k[t + j] == x);
            assert(lt(k[t - 1], k[t + j]));
        } else {
            let j = choose|j: int|
                0 <= j < right.children@.len() && #[trigger] elems(right.children@[j]).contains(x);
            assert(right.children@[j] == c.children@[t + j]);
            assert(between(c.children@[t + j], k, t + j));
            assert(elems(c.children@[t + j]).contains(x));
            assert(lt(k[t + j - 1], x));
            if j > 0 {
                assert(lt(k[t - 1], k[t + j - 1]));
            }
        }
    }
    assert forall|x: T| elems(c).contains(x) implies elems(left).contains(x) || x == m || elems(
        right,
    ).contains(x) by {
        lemma_elems(left, x);
        lemma_elems(right, x);
        lemma_elems(c, x);
        if k.contains(x) {
            let j = choose|j: int| 0 <= j < k.len() && k[j] == x;
            if j < t - 1 {
                assert(left.keys@[j] == x);
            } else if j > t - 1 {
                assert(right.keys@[j - t] == x);
            }
        } else {
            let j = choose|j: int|
                0 <= j < c.children@.len() && #[trigger] elems(c.children@[j]).contains(x);
            if j < t {
                assert(left.children@[j] == c.children@[j]);
                assert(elems(left.children@[j]).contains(x));
            } else {
                assert(right.children@[j - t] == c.children@[j]);
                assert(elems(right.children@[j - t]).contains(x));
            }
        }
    }
    assert(k.contains(k[t - 1]));
    lemma_elems(c, m);
}

/// A node keeps its search order and its keys where one child gives way to
/// its two halves with the key from its middle between them.
proof fn lemma_split_parent<T: Ord>(
    p: Node<T>,
    q: Node<T>,
    i: int,
    left: Node<T>,
    right: Node<T>,
    m: T,
    t: usize,
    h: nat,
)
    requires
        total_order::<T>(),
        1 <= t,
        h > 0,
        valid(p, t, h),
        !p.leaf,
        !q.leaf,
        p.keys@.len() < 2 * t - 1,
        0 <= i < p.children@.len(),
        q.keys@ == p.keys@.insert(i, m),
        q.children@ == p.children@.update(i, left).insert(i + 1, right),
        valid(left, t, (h - 1) as nat),
        valid(right, t, (h - 1) as nat),
        left.keys@.len() >= t - 1,
        right.keys@.len() >= t - 1,
        elems(p.children@[i]).contains(m),
        forall|x: T|
            #![trigger elems(p.children@[i]).contains(x)]
            elems(p.children@[i]).contains(x) <==> elems(left).contains(x) || x == m || elems(
                right,
            ).contains(x),
        forall|x: T| #[trigger] elems(left).contains(x) ==> lt(x, m),
        forall|x: T| #[trigger] elems(right).contains(x) ==> lt(m, x),
    ensures
        valid(q, t, h),
        elems(q) == elems(p),
{
    broadcast use group_order;
    let pk = p.keys@;
    let qk = q.keys@;
    let c = p.children@[i];
    assert(valid(c, t, (h - 1) as nat));
    assert(between(c, pk, i));
    assert(elems(c).contains(m));
    assert forall|a: int, b: int| 0 <= a < b < qk.len() implies lt(qk[a], qk[b]) by {
        let a0 = if a < i { a } else { a - 1 };
        let b0 = if b < i { b } else { b - 1 };
        if a != i && b != i {
            assert(lt(pk[a0], pk[b0]));
        } else if a == i {
            assert(lt(m, pk[i]));
            if b0 > i {
                assert(lt(pk[i], pk[b0]));
            }
        } else {
            assert(lt(pk[i - 1], m));
            if a0 < i - 1 {
                assert(lt(pk[a0], pk[i - 1]));
            }
        }
    }
    assert forall|j: int| 0 <= j < q.children@.len() implies valid(
        #[trigger] q.children@[j],
        t,
        (h - 1) as nat,
    ) && between(q.children@[j], qk, j) by {
        if j < i {
            assert(q.children@[j] == p.children@[j]);
            assert(valid(p.children@[j], t, (h - 1) as nat));
            assert(between(p.children@[j], pk, j));
        } else if j == i {
            assert(q.children@[j] == left);
            assert forall|x: T| #[trigger] elems(left).contains(x) implies (j > 0 ==> lt(
                qk[j - 1],
                x,
            )) && (j < qk.len() ==> lt(x, qk[j])) by {
                assert(elems(c).contains(x));
            }
        } else if j == i + 1 {
            assert(q.children@[j] == right);
            assert forall|x: T| #[trigger] elems(right).contains(x) implies (j > 0 ==> lt(
                qk[j - 1],
                x,
            )) && (j < qk.len() ==> lt(x, qk[j])) by {
                assert(elems(c).contains(x));
            }
        } else {
            assert(q.children@[j] == p.children@[j - 1]);
            assert(valid(p.children@[j - 1], t, (h - 1) as nat));
            assert(between(p.children@[j - 1], pk, j - 1));
        }
    }
    assert forall|x: T| elems(q).contains(x) <==> elems(p).contains(x) by {
        lemma_elems(p, x);
        lemma_elems(q, x);
        if elems(q).contains(x) {
            if qk.contains(x) {
                let j = choose|j: int| 0 <= j < qk.len() && qk[j] == x;
                if j < i {
                    assert(pk[j] == x);
                } else if j > i {
                    assert(pk[j - 1] == x);
                } else {
                    assert(elems(p.children@[i]).contains(x));
                }
            } else {
                let j = choose|j: int|
                    0 <= j < q.children@.len() && #[trigger] elems(q.children@[j]).contains(x);
                if j < i {
                    assert(q.children@[j] == p.children@[j]);
                    assert(elems(p.children@[j]).contains(x));
                } else if j == i || j == i + 1 {
                    assert(elems(p.children@[i]).contains(x));
                } else {
                    assert(q.children@[j] == p.children@[j - 1]);
                    assert(elems(p.children@[j - 1]).contains(x));
                }
            }
        }
        if elems(p).contains(x) {
            if pk.contains(x) {
                let j = choose|j: int| 0 <= j < pk.len() && pk[j] == x;
                if j < i {
                    assert(qk[j] == x);
                } else {
                    assert(qk[j + 1] == x);
                }
            } else {
                let j = choose|j: int|
                    0 <= j < p.children@.len() && #[trigger] elems(p.children@[j]).contains(x);
                if j < i {
                    assert(q.children@[j] == p.children@[j]);
                    assert(elems(q.children@[j]).contains(x));
                } else if j > i {
                    assert(q.children@[j + 1] == p.children@[j]);
                    assert(elems(q.children@[j + 1]).contains(x));
                } else {
                    if elems(left).contains(x) {
                        assert(q.children@[i] == left);
                        assert(elems(q.children@[i]).contains(x));
                    } else if elems(right).contains(x) {
                        assert(q.children@[i + 1] == right);
                        assert(elems(q.children@[i + 1]).contains(x));
                    } else {
                        assert(qk[i] == x);
                    }
                }
            }
        }
    }
    assert(elems(q) =~= elems(p));
}

/// A key put among the keys of a leaf is put into its set.
proof fn lemma_leaf_insert<T: Ord>(p: Node<T>, q: Node<T>, pos: int, key: T, t: usize)
    requires
        total_order::<T>(),
        valid(p, t, 0),
        p.keys@.len() < 2 * t - 1,
        q.leaf,
        q.children@.len() == 0,
        0 <= pos <= p.keys@.len(),
        q.keys@ == p.keys@.insert(pos, key),
        forall|j: int| 0 <= j < pos ==> lt(p.keys@[j], key),
        forall|j: int| pos <= j < p.keys@.len() ==> lt(key, p.keys@[j]),
    ensures
        valid(q, t, 0),
        elems(q) == elems(p).insert(key),
{
    broadcast use group_order;
    let pk = p.keys@;
    let qk = q.keys@;
    assert forall|a: int, b: int| 0 <= a < b < qk.len() implies lt(qk[a], qk[b]) by {
        let a0 = if a < pos { a } else { a - 1 };
        let b0 = if b < pos { b } else { b - 1 };
        if a != pos && b != pos {
            assert(lt(pk[a0], pk[b0]));
        }
    }
    assert forall|x: T| elems(q).contains(x) <==> elems(p).insert(key).contains(x) by {
        lemma_elems(p, x);
        lemma_elems(q, x);
        if qk.contains(x) {
            let j = choose|j: int| 0 <= j < qk.len() && qk[j] == x;
            if j < pos {
                assert(pk[j] == x);
            } else if j > pos {
                assert(pk[j - 1] == x);
            }
        }
        if pk.contains(x) {
            let j = choose|j: int| 0 <= j < pk.len() && pk[j] == x;
            if j < pos {
                assert(qk[j] == x);
            } else {
                assert(qk[j + 1] == x);
            }
        }
        assert(qk[pos] == key);
    }
    assert(elems(q) =~= elems(p).insert(key));
}

/// A key put into the tree of one child, between the keys beside that child,
/// is put into the set of the node.
proof fn lemma_child_insert<T: Ord>(
    p: Node<T>,
    q: Node<T>,
    pos: int,
    key: T,
    t: usize,
    h: nat,
)
    requires
        total_order::<T>(),
        h > 0,
        valid(p, t, h),
        !p.leaf,
        !q.leaf,
        0 <= pos < p.children@.len(),
        q.keys@ == p.keys@,
        q.children@.len() == p.children@.len(),
        forall|j: int| 0 <= j < p.children@.len() && j != pos ==> q.children@[j] == p.children@[j],
        valid(q.children@[pos], t, (h - 1) as nat),
        q.children@[pos].keys@.len() >= t - 1,
        elems(q.children@[pos]) == elems(p.children@[pos]).insert(key),
        pos > 0 ==> lt(p.keys@[pos - 1], key),
        pos < p.keys@.len() ==> lt(key, p.keys@[pos]),
    ensures
        valid(q, t, h),
        elems(q) == elems(p).insert(key),
{
    assert forall|j: int| 0 <= j < q.children@.len() implies valid(
        #[trigger] q.children@[j],
        t,
        (h - 1) as nat,
    ) && between(q.children@[j], q.keys@, j) by {
        assert(valid(p.children@[j], t, (h - 1) as nat));
        assert(between(p.children@[j], p.keys@, j));
        if j == pos {
            assert forall|x: T| #[trigger] elems(q.children@[j]).contains(x) implies (j > 0
                ==> lt(q.keys@[j - 1], x)) && (j < q.keys@.len() ==> lt(x, q.keys@[j])) by {
                if x != key {
                    assert(elems(p.children@[j]).contains(x));
                }
            }
        }
    }
    assert forall|x: T| elems(q).contains(x) <==> elems(p).insert(key).contains(x) by {
        lemma_elems(p, x);
        lemma_elems(q, x);
        if elems(q).contains(x) && !q.keys@.contains(x) {
            let j = choose|j: int|
                0 <= j < q.children@.len() && #[trigger] elems(q.children@[j]).contains(x);
            if j != pos {
                assert(elems(p.children@[j]).contains(x));
            } else if x != key {
                assert(elems(p.children@[pos]).contains(x));
            }
        }
        if elems(p).contains(x) && !p.keys@.contains(x) {
            let j = choose|j: int|
                0 <= j < p.children@.len() && #[trigger] elems(p.children@[j]).contains(x);
            if j != pos {
                assert(elems(q.children@[j]).contains(x));
            } else {
                assert(elems(q.children@[pos]).contains(x));
            }
        }
        if x == key {
            assert(elems(q.children@[pos]).contains(x));
        }
    }
    assert(elems(q) =~= elems(p).insert(key));
}

/// Two ascending lists, the first of which ends before the second begins,
/// make one ascending list.
proof fn lemma_joined_ascending<T: Ord>(a: Seq<T>, b: Seq<T>)
    requires
        total_order::<T>(),
        strictly_ascending(a),
        strictly_ascending(b),
        forall|i: int, j: int| 0 <= i < a.len() && 0 <= j < b.len() ==> lt(a[i], b[j]),
    ensures
        strictly_ascending(a + b),
{
    let s = a + b;
    assert forall|i: int, j: int| 0 <= i < j < s.len() implies lt(s[i], s[j]) by {
        if j < a.len() {
            assert(lt(a[i], a[j]));
        } else if i >= a.len() {
            assert(lt(b[i - a.len()], b[j - a.len()]));
        } else {
            assert(lt(a[i], b[j - a.len()]));
        }
    }
}

/// Read from left to right, a tree in search order gives its keys in
/// strictly ascending order, each once.
proof fn lemma_flat<T: Ord>(node: Node<T>, t: usize, h: nat)
    requires
        total_order::<T>(),
        valid(node, t, h),
    ensures
        strictly_ascending(flat(node)),
        forall|x: T| elems(node).contains(x) <==> flat(node).contains(x),
    decreases node, 1int,
{
    broadcast use group_order;
    let k = node.keys@;
    let n = k.len();
    if node.leaf {
        assert forall|x: T| elems(node).contains(x) <==> flat(node).contains(x) by {
            lemma_elems(node, x);
        }
    } else {
        lemma_flat_before(node, t, h, n);
        let last = node.children@[n as int];
        assert(valid(last, t, (h - 1) as nat));
        assert(between(last, k, n as int));
        lemma_flat(last, t, (h - 1) as nat);
        let a = flat_before(node, n);
        let b = flat(last);
        assert forall|i: int, j: int| 0 <= i < a.len() && 0 <= j < b.len() implies lt(
            a[i],
            b[j],
        ) by {
            assert(a.contains(a[i]));
            assert(b.contains(b[j]));
            assert(elems(last).contains(b[j]));
            if n > 0 {
                assert(lt(k[n - 1], b[j]));
            }
        }
        lemma_joined_ascending(a, b);
        assert forall|x: T| elems(node).contains(x) <==> flat(node).contains(x) by {
            lemma_elems(node, x);
            if flat(node).contains(x) {
                let i = choose|i: int| 0 <= i < (a + b).len() && (a + b)[i] == x;
                if i < a.len() {
                    assert(a[i] == x);
                    assert(a.contains(x));
                } else {
                    assert(b[i - a.len()] == x);
                    assert(b.contains(x));
                    assert(elems(node.children@[n as int]).contains(x));
                }
            }
            if elems(node).contains(x) {
                if k.contains(x) {
                    let j = choose|j: int| 0 <= j < k.len() && k[j] == x;
                    assert(a.contains(x));
                    let i = choose|i: int| 0 <= i < a.len() && a[i] == x;
                    assert((a + b)[i] == x);
                } else {
                    let j = choose|j: int|
                        0 <= j < node.children@.len() && #[trigger] elems(
                            node.children@[j],
                        ).contains(x);
                    if j < n {
                        assert(a.contains(x));
                        let i = choose|i: int| 0 <= i < a.len() && a[i] == x;
                        assert((a + b)[i] == x);
                    } else {
                        assert(b.contains(x));
                        let i = choose|i: int| 0 <= i < b.len() && b[i] == x;
                        assert((a + b)[a.len() + i] == x);
                    }
                }
            }
        }
    }
}

/// What holds of the keys read from left to right up to the key at position
/// `n - 1`: they ascend, end with that key, and are the first `n` keys of the
/// node and the keys of its first `n` children.
proof fn lemma_flat_before<T: Ord>(node: Node<T>, t: usize, h: nat, n: nat)
    requires
        total_order::<T>(),
        valid(node, t, h),
        !node.leaf,
        n <= node.keys@.len(),
    ensures
        strictly_ascending(flat_before(node, n)),
        forall|x: T|
            flat_before(node, n).contains(x) <==> (exists|j: int|
                0 <= j < n && node.keys@[j] == x) || (exists|j: int|
                0 <= j < n && #[trigger] elems(node.children@[j]).contains(x)),
        forall|x: T|
            n > 0 && #[trigger] flat_before(node, n).contains(x) ==> x == node.keys@[n - 1] || lt(
                x,
                node.keys@[n - 1],
            ),
    decreases node, 0int, n,
{
    broadcast use group_order;
    let k = node.keys@;
    if n > 0 {
        lemma_flat_before(node, t, h, (n - 1) as nat);
        let child = node.children@[n - 1];
        assert(valid(child, t, (h - 1) as nat));
        assert(between(child, k, n - 1));
        lemma_flat(child, t, (h - 1) as nat);
        let a = flat_before(node, (n - 1) as nat);
        let b = flat(child);
        let ab = a + b;
        let s = flat_before(node, n);
        assert(s == ab.push(k[n - 1]));
        assert forall|i: int, j: int| 0 <= i < a.len() && 0 <= j < b.len() implies lt(
            a[i],
            b[j],
        ) by {
            assert(a.contains(a[i]));
            assert(b.contains(b[j]));
            assert(elems(child).contains(b[j]));
            assert(lt(k[n - 2], b[j]));
        }
        lemma_joined_ascending(a, b);
        assert forall|i: int| 0 <= i < ab.len() implies lt(ab[i], k[n - 1]) by {
            if i < a.len() {
                assert(a.contains(a[i]));
                assert(lt(k[n - 2], k[n - 1]));
            } else {
                assert(b.contains(b[i - a.len()]));
                assert(elems(child).contains(b[i - a.len()]));
            }
        }
        assert forall|i: int, j: int| 0 <= i < j < s.len() implies lt(s[i], s[j]) by {
            if j < ab.len() {
                assert(lt(ab[i], ab[j]));
            } else {
                assert(lt(ab[i], k[n - 1]));
            }
        }
        assert forall|x: T| #[trigger] s.contains(x) implies x == k[n - 1] || lt(x, k[n - 1]) by {
            let i = choose|i: int| 0 <= i < s.len() && s[i] == x;
            if i < ab.len() {
                assert(lt(ab[i], k[n - 1]));
            }
        }
        assert forall|x: T|
            s.contains(x) <==> (exists|j: int| 0 <= j < n && k[j] == x) || (exists|j: int|
                0 <= j < n && #[trigger] elems(node.children@[j]).contains(x)) by {
            if s.contains(x) {
                let i = choose|i: int| 0 <= i < s.len() && s[i] == x;
                if i < a.len() {
                    assert(a[i] == x);
                    assert(a.contains(x));
                    if exists|j: int| 0 <= j < n - 1 && k[j] == x {
                        let j = choose|j: int| 0 <= j < n - 1 && k[j] == x;
                        assert(k[j] == x);
                    } else {
                        let j = choose|j: int|
                            0 <= j < n - 1 && #[trigger] elems(node.children@[j]).contains(x);
                        assert(elems(node.children@[j]).contains(x));
                    }
                } else if i < ab.len() {
                    assert(b[i - a.len()] == x);
                    assert(b.contains(x));
                    assert(elems(node.children@[n - 1]).contains(x));
                } else {
                    assert(k[n - 1] == x);
                }
            }
            if exists|j: int| 0 <= j < n && k[j] == x {
                let j = choose|j: int| 0 <= j < n && k[j] == x;
                if j < n - 1 {
                    assert(a.contains(x));
                    let i = choose|i: int| 0 <= i < a.len() && a[i] == x;
                    assert(s[i] == x);
                } else {
                    assert(s[ab.len() as int] == x);
                }
            }
            if exists|j: int| 0 <= j < n && #[trigger] elems(node.children@[j]).contains(x) {
                let j = choose|j: int|
                    0 <= j < n && #[trigger] elems(node.children@[j]).contains(x);
                if j < n - 1 {
                    assert(a.contains(x));
                    let i = choose|i: int| 0 <= i < a.len() && a[i] == x;
                    assert(s[i] == x);
                } else {
                    assert(b.contains(x));
                    let i = choose|i: int| 0 <= i < b.len() && b[i] == x;
                    assert(s[a.len() + i] == x);
                }
            }
        }
    }
}

/// The keys `b` are clones of the keys `a`, each in its place.
spec fn copied_keys<T: Clone>(a: Seq<T>, b: Seq<T>) -> bool {
    &&& a.len() == b.len()
    &&& forall|i: int| 0 <= i < a.len() ==> cloned(#[trigger] a[i], b[i])
}

/// The tree `b` has the shape of the tree `a`, and each of its keys is a
/// clone of the key in its place.
spec fn copied<T: Clone>(a: Node<T>, b: Node<T>) -> bool
    decreases a,
{
    &&& a.leaf == b.leaf
    &&& copied_keys(a.keys@, b.keys@)
    &&& a.children@.len() == b.children@.len()
    &&& forall|i: int|
        0 <= i < a.children@.len() ==> copied(#[trigger] a.children@[i], b.children@[i])
}

/// Where a clone of a key is always that key, a copy of a tree holds the keys
/// of that tree.
proof fn lemma_copied_elems<T: Clone>(a: Node<T>, b: Node<T>)
    requires
        copied(a, b),
        forall|x: T, y: T| #[trigger] cloned(x, y) ==> x == y,
    ensures
        elems(a) == elems(b),
    decreases a, 1int,
{
    assert(a.keys@ =~= b.keys@);
    lemma_copied_kids(a.children@, b.children@, a.children@.len());
}

/// Where a clone of a key is always that key, copies of trees hold the keys
/// of those trees.
proof fn lemma_copied_kids<T: Clone>(a: Seq<Node<T>>, b: Seq<Node<T>>, n: nat)
    requires
        a.len() == b.len(),
        n <= a.len(),
        forall|i: int| 0 <= i < a.len() ==> copied(#[trigger] a[i], b[i]),
        forall|x: T, y: T| #[trigger] cloned(x, y) ==> x == y,
    ensures
        kids_elems(a, n) == kids_elems(b, n),
    decreases a, 0int, n,
{
    if n > 0 {
        lemma_copied_kids(a, b, (n - 1) as nat);
        lemma_copied_elems(a[n - 1], b[n - 1]);
    }
}

/// A copy of the tree at `node`.
fn copy_tree<T: Clone>(node: &Node<T>) -> (res: Node<T>)
    ensures
        copied(*node, res),
    decreases *node,
{
    let mut keys: Vec<T> = Vec::new();
    let mut i: usize = 0;
    while i < node.keys.len()
        invariant
            i <= node.keys@.len(),
            keys@.len() == i,
            forall|j: int| 0 <= j < i ==> cloned(#[trigger] node.keys@[j], keys@[j]),
        decreases node.keys@.len() - i,
    {
        let key = node.keys[i].clone();
        keys.push(key);
        i += 1;
    }
    let mut children: Vec<Node<T>> = Vec::new();
    let mut k: usize = 0;
    while k < node.children.len()
        invariant
            k <= node.children@.len(),
            children@.len() == k,
            forall|j: int| 0 <= j < k ==> copied(#[trigger] node.children@[j], children@[j]),
        decreases node.children@.len() - k,
    {
        let child = copy_tree(&node.children[k]);
        children.push(child);
        k += 1;
    }
    Node { keys, children, leaf: node.leaf }
}

impl<T: Clone> BTree<T> {
    /// This tree has the minimum degree and the shape of `other`, and each of
    /// its keys is a clone of the key in its place in `other`.
    pub closed spec fn copy_of(&self, other: &Self) -> bool {
        &&& self.t == other.t
        &&& match other.root {
            Some(node) => self.root is Some && copied(*node, *self.root.unwrap()),
            None => self.root is None,
        }
    }

    /// Where a clone of a key is always that key, a copy of a tree holds the
    /// keys of that tree.
    pub proof fn lemma_copy_same(&self, other: &Self)
        requires
            self.copy_of(other),
            forall|x: T, y: T| #[trigger] cloned(x, y) ==> x == y,
        ensures
            self@ == other@,
    {
        match other.root {
            Some(node) => {
                lemma_copied_elems(*node, *self.root.unwrap());
            },
            None => {},
        }
    }
}

impl<T: Clone> Clone for BTree<T> {
    /// A copy of the tree.
    fn clone(&self) -> (res: Self)
        ensures
            res.copy_of(self),
    {
        BTree {
            root: match &self.root {
                Some(node) => Some(Box::new(copy_tree(node))),
                None => None,
            },
            t: self.t,
        }
    }
}

impl<T> View for BTree<T> {
    type V = Set<T>;

    /// The set of keys held.
    closed spec fn view(&self) -> Set<T> {
        match self.root {
            Some(node) => elems(*node),
            None => Set::empty(),
        }
    }
}

impl<T: Ord> BTree<T> {
    /// The representation invariant: a minimum degree of at least two, and a
    /// tree in search order with at most `2 t - 1` keys in every node, at
    /// least `t - 1` keys in every node but the root, and all its leaves on
    /// one level.
    pub closed spec fn wf(&self) -> bool {
        &&& 2 <= self.t
        &&& 2 * self.t <= usize::MAX
        &&& match self.root {
            Some(node) => exists|h: nat| valid(*node, self.t, h),
            None => true,
        }
    }

    /// The number of levels below the root.
    spec fn levels(&self) -> nat {
        match self.root {
            Some(node) => choose|h: nat| valid(*node, self.t, h),
            None => 0,
        }
    }

    /// An empty tree of minimum degree `t`.
    pub fn new(t: usize) -> (tree: Self)
        requires
            2 <= t,
            2 * t <= usize::MAX,
        ensures
            tree.wf(),
            tree@ == Set::<T>::empty(),
    {
        BTree { root: None, t }
    }

    /// Adds `key` to the set; a key that is already there stays as it is.
    pub fn insert(&mut self, key: T)
        requires
            total_order::<T>(),
            old(self).wf(),
        ensures
            final(self).wf(),
            final(self)@ == old(self)@.insert(key),
    {
        let ghost h = self.levels();
        match self.root.take() {
            None => {
                let mut keys = Vec::new();
                keys.push(key);
                let node = Node { keys, children: Vec::new(), leaf: true };
                proof {
                    assert(node.keys@ =~= seq![key]);
                    assert(elems(node) =~= Set::<T>::empty().insert(key)) by {
                        assert forall|x: T| elems(node).contains(x) <==> x == key by {
                            lemma_elems(node, x);
                            if x == key {
                                assert(node.keys@[0] == key);
                            }
                        }
                    }
                }
                self.root = Some(Box::new(node));
                proof {
                    assert(valid(*self.root.unwrap(), self.t, 0));
                }
            },
            Some(root) => {
                let mut root = root;
                if root.keys.len() == 2 * self.t - 1 {
                    let ghost r0 = *root;
                    let mut s = Node { keys: Vec::new(), children: Vec::new(), leaf: false };
                    s.children.push(*root);
                    proof {
                        assert(s.children@[0] == r0);
                        assert(elems(s) =~= elems(r0)) by {
                            assert forall|x: T| elems(s).contains(x) <==> elems(r0).contains(x) by {
                                lemma_elems(s, x);
                                if elems(r0).contains(x) {
                                    assert(elems(s.children@[0]).contains(x));
                                }
                            }
                        }
                    }
                    self.split_child(&mut s, 0, Ghost(h + 1));
                    self.insert_non_full(&mut s, key, Ghost(h + 1));
                    self.root = Some(Box::new(s));
                    proof {
                        assert(valid(*self.root.unwrap(), self.t, h + 1));
                    }
                } else {
                    self.insert_non_full(&mut root, key, Ghost(h));
                    self.root = Some(root);
                    proof {
                        assert(valid(*self.root.unwrap(), self.t, h));
                    }
                }
            },
        }
    }

    /// Parts the full child at position `i` of `parent` into two halves with
    /// the key from its middle between them.
    fn split_child(&self, parent: &mut Node<T>, i: usize, Ghost(h): Ghost<nat>)
        requires
            total_order::<T>(),
            1 <= self.t,
            2 * self.t <= usize::MAX,
            valid(*old(parent), self.t, h),
            !old(parent).leaf,
            old(parent).keys@.len() < 2 * self.t - 1,
            i < old(parent).children@.len(),
            old(parent).children@[i as int].keys@.len() == 2 * self.t - 1,
        ensures
            valid(*final(parent), self.t, h),
            elems(*final(parent)) == elems(*old(parent)),
            !final(parent).leaf,
            final(parent).keys@.len() == old(parent).keys@.len() + 1,
            final(parent).keys@ == old(parent).keys@.insert(i as int, final(parent).keys@[i as int]),
            final(parent).children@[i as int].keys@.len() == self.t - 1,
            final(parent).children@[i + 1].keys@.len() == self.t - 1,
    {
        let t = self.t;
        let ghost p = *parent;
        let ghost c = p.children@[i as int];
        proof {
            assert(valid(c, t, (h - 1) as nat));
        }
        let leaf = parent.children[i].leaf;
        let z_keys = parent.children[i].keys.split_off(t);
        let z_children = if leaf {
            Vec::new()
        } else {
            parent.children[i].children.split_off(t)
        };
        let z = Node { keys: z_keys, children: z_children, leaf };
        let median = parent.children[i].keys.pop().unwrap();
        let ghost left = parent.children@[i as int];
        proof {
            assert(left.keys@ =~= c.keys@.subrange(0, t - 1));
            assert(median == c.keys@[t - 1]);
            lemma_halves(c, left, z, t, (h - 1) as nat);
            assert(parent.children@ =~= p.children@.update(i as int, left));
        }
        parent.keys.insert(i, median);
        parent.children.insert(i + 1, z);
        proof {
            lemma_split_parent(p, *parent, i as int, left, z, median, t, h);
        }
    }

    /// Adds `key` to the tree at `node`, which has room for one more key.
    fn insert_non_full(&self, node: &mut Node<T>, key: T, Ghost(h): Ghost<nat>)
        requires
            total_order::<T>(),
            1 <= self.t,
            2 * self.t <= usize::MAX,
            valid(*old(node), self.t, h),
            old(node).keys@.len() < 2 * self.t - 1,
        ensures
            valid(*final(node), self.t, h),
            elems(*final(node)) == elems(*old(node)).insert(key),
            final(node).keys@.len() >= old(node).keys@.len(),
        decreases h,
    {
        let ghost p = *node;
        let (found, pos) = search_keys(&node.keys, &key);
        if found {
            proof {
                lemma_elems(p, key);
                assert(p.keys@.contains(p.keys@[pos as int]));
                assert(elems(p).insert(key) =~= elems(p));
            }
            return ;
        }
        if node.leaf {
            node.keys.insert(pos, key);
            proof {
                lemma_leaf_insert(p, *node, pos as int, key, self.t);
            }
        } else {
            let mut pos = pos;
            proof {
                assert(valid(p.children@[pos as int], self.t, (h - 1) as nat));
            }
            if node.children[pos].keys.len() == 2 * self.t - 1 {
                self.split_child(node, pos, Ghost(h));
                let ghost q = *node;
                match compare(&key, &node.keys[pos]) {
                    Rank::Same => {
                        proof {
                            lemma_elems(q, key);
                            assert(q.keys@.contains(q.keys@[pos as int]));
                            assert(elems(p).insert(key) =~= elems(p));
                        }
                        return ;
                    },
                    Rank::After => {
                        pos = pos + 1;
                    },
                    Rank::Before => {},
                }
            }
            let ghost q = *node;
            proof {
                broadcast use group_order;
                assert(valid(q.children@[pos as int], self.t, (h - 1) as nat));
                assert(between(q.children@[pos as int], q.keys@, pos as int));
                if pos > 0 {
                    assert(lt(q.keys@[pos - 1], key));
                }
                if pos < q.keys@.len() {
                    assert(lt(key, q.keys@[pos as int]));
                }
            }
            self.insert_non_full(&mut node.children[pos], key, Ghost((h - 1) as nat));
            proof {
                lemma_child_insert(q, *node, pos as int, key, self.t, h);
            }
        }
    }

    /// Whether `key` is in the set.
    pub fn contains(&self, key: &T) -> (r: bool)
        requires
            total_order::<T>(),
            self.wf(),
        ensures
            r == self@.contains(*key),
    {
        match &self.root {
            Some(node) => {
                let ghost h = self.levels();
                self.search(node, key, Ghost(h)).is_some()
            },
            None => false,
        }
    }

    /// The key of the tree at `node` that equals `key`, if there is one.
    fn search<'a>(&'a self, node: &'a Node<T>, key: &T, Ghost(h): Ghost<nat>) -> (r: Option<
        &'a T,
    >)
        requires
            total_order::<T>(),
            valid(*node, self.t, h),
        ensures
            r is Some == elems(*node).contains(*key),
            r is Some ==> *r.unwrap() == *key,
        decreases *node,
    {
        let (found, pos) = search_keys(&node.keys, key);
        proof {
            broadcast use group_order;
            lemma_elems(*node, *key);
            assert forall|j: int|
                0 <= j < node.children@.len() && j != pos implies !(#[trigger] elems(
                node.children@[j],
            ).contains(*key)) by {
                assert(valid(node.children@[j], self.t, (h - 1) as nat));
                assert(between(node.children@[j], node.keys@, j));
                if elems(node.children@[j]).contains(*key) {
                    if j < pos {
                        assert(lt(*key, node.keys@[j]));
                        assert(lt(node.keys@[j], *key));
                    } else {
                        assert(lt(node.keys@[j - 1], *key));
                        if found && j - 1 == pos {
                        } else {
                            assert(lt(*key, node.keys@[j - 1]));
                        }
                    }
                }
            }
            if found {
                assert(node.keys@.contains(node.keys@[pos as int]));
            }
        }
        if found {
            Some(&node.keys[pos])
        } else if node.leaf {
            None
        } else {
            proof {
                assert(valid(node.children@[pos as int], self.t, (h - 1) as nat));
            }
            self.search(&node.children[pos], key, Ghost((h - 1) as nat))
        }
    }

    /// The keys of the set in ascending order.
    pub fn in_order_traversal(&self) -> (r: Vec<&T>)
        requires
            total_order::<T>(),
            self.wf(),
        ensures
            strictly_ascending(targets(r@)),
            forall|x: T| self@.contains(x) <==> targets(r@).contains(x),
    {
        let mut result = Vec::new();
        match &self.root {
            Some(node) => {
                let ghost h = self.levels();
                self.in_order(node, &mut result, Ghost(h));
                proof {
                    lemma_flat(**node, self.t, h);
                    assert(targets(result@) =~= flat(**node));
                }
            },
            None => {},
        }
        result
    }

    /// Adds the keys of the tree at `node` to `result`, from left to right.
    fn in_order<'a>(&'a self, node: &'a Node<T>, result: &mut Vec<&'a T>, Ghost(h): Ghost<nat>)
        requires
            valid(*node, self.t, h),
        ensures
            targets(final(result)@) == targets(old(result)@) + flat(*node),
        decreases *node,
    {
        let n = node.keys.len();
        let ghost start = targets(result@);
        let mut i: usize = 0;
        if node.leaf {
            while i < n
                invariant
                    i <= n,
                    n == node.keys@.len(),
                    targets(result@) == start + node.keys@.subrange(0, i as int),
                decreases n - i,
            {
                let ghost before = result@;
                result.push(&node.keys[i]);
                proof {
                    assert(targets(result@) =~= targets(before).push(node.keys@[i as int]));
                    assert(targets(result@) =~= start + node.keys@.subrange(0, i + 1));
                }
                i += 1;
            }
            proof {
                assert(node.keys@.subrange(0, n as int) =~= node.keys@);
            }
        } else {
            while i < n
                invariant
                    i <= n,
                    n == node.keys@.len(),
                    valid(*node, self.t, h),
                    !node.leaf,
                    targets(result@) == start + flat_before(*node, i as nat),
                decreases n - i,
            {
                proof {
                    assert(valid(node.children@[i as int], self.t, (h - 1) as nat));
                }
                self.in_order(&node.children[i], result, Ghost((h - 1) as nat));
                let ghost before = result@;
                result.push(&node.keys[i]);
                proof {
                    assert(targets(result@) =~= targets(before).push(node.keys@[i as int]));
                    assert(targets(result@) =~= start + flat_before(*node, (i + 1) as nat));
                }
                i += 1;
            }
            proof {
                assert(valid(node.children@[n as int], self.t, (h - 1) as nat));
            }
            self.in_order(&node.children[n], result, Ghost((h - 1) as nat));
            proof {
                assert(targets(result@) =~= start + flat(*node));
            }
        }
    }
}

} // verus!
