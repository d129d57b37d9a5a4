//! A binary max-heap laid out in a vector: the children of the item at
//! position `i` stand at `2 i + 1` and `2 i + 2`.
use vstd::prelude::*;
use vstd::multiset::Multiset;
use crate::order::{le, less, total_order, group_order};
use crate::heaps::queue_model::is_greatest;

verus! {

/// A max-priority queue over items of type `T`.
#[derive(Debug, Clone)]
pub struct BinaryHeap<T> {
    data: Vec<T>,
}

/// The item at `i` is not ordered after the item at its parent's position.
spec fn below_parent<T: Ord>(s: Seq<T>, i: int) -> bool {
    le(s[i], s[(i - 1) / 2])
}

/// Every item but the first is ordered at or before its parent.
spec fn heap_order<T: Ord>(s: Seq<T>) -> bool {
    forall|i: int| 0 < i < s.len() ==> #[trigger] below_parent(s, i)
}

/// Heap order, but that the item at `k` may be ordered after its parent; the
/// children of `k` are ordered at or before the parent of `k`.
spec fn order_above<T: Ord>(s: Seq<T>, k: int) -> bool {
    &&& forall|i: int| 0 < i < s.len() && i != k ==> #[trigger] below_parent(s, i)
    &&& forall|i: int|
        0 < i < s.len() && (i - 1) / 2 == k && k > 0 ==> le(#[trigger] s[i], s[(k - 1) / 2])
}

/// Heap order, but that the children of `k` may be ordered after it; they are
/// ordered at or before the parent of `k`.
spec fn order_below<T: Ord>(s: Seq<T>, k: int) -> bool {
    &&& forall|i: int| 0 < i < s.len() && (i - 1) / 2 != k ==> #[trigger] below_parent(s, i)
    &&& forall|i: int|
        0 < i < s.len() && (i - 1) / 2 == k && k > 0 ==> le(#[trigger] s[i], s[(k - 1) / 2])
}

/// In heap order the first item is the greatest.
proof fn lemma_first_greatest<T: Ord>(s: Seq<T>, i: int)
    requires
        total_order::<T>(),
        heap_order(s),
        0 <= i < s.len(),
    ensures
        le(s[i], s[0]),
    decreases i,
{
    broadcast use group_order;
    if i > 0 {
        assert(below_parent(s, i));
        lemma_first_greatest(s, (i - 1) / 2);
    }
}

/// In heap order the first item is the greatest of the multiset of items.
proof fn lemma_first_is_greatest<T: Ord>(s: Seq<T>)
    requires
        total_order::<T>(),
        heap_order(s),
        s.len() > 0,
    ensures
        is_greatest(s[0], s.to_multiset()),
{
    broadcast use vstd::seq_lib::group_to_multiset_ensures;
    assert(s.contains(s[0]));
    assert forall|x: T| #[trigger] s.to_multiset().contains(x) implies le(x, s[0]) by {
        assert(s.contains(x));
        let i = choose|i: int| 0 <= i < s.len() && s[i] == x;
        lemma_first_greatest(s, i);
    }
}

/// Exchanging two items keeps the multiset of items.
proof fn lemma_swap_multiset<T>(s: Seq<T>, i: int, j: int)
    requires
        0 <= i < s.len(),
        0 <= j < s.len(),
    ensures
        s.update(i, s[j]).update(j, s[i]).to_multiset() == s.to_multiset(),
{
    broadcast use vstd::seq_lib::group_to_multiset_ensures;
    let t = s.update(i, s[j]);
    vstd::seq_lib::to_multiset_update(s, i, s[j]);
    vstd::seq_lib::to_multiset_update(t, j, s[i]);
    assert(t.update(j, s[i]).to_multiset() =~= s.to_multiset());
}

/// Exchanges the items at `i` and `j`. The body calls `<[T]>::swap`, which
/// swaps the two elements of the slice and leaves every other one in place.
#[verifier::external_body]
fn swap_items<T>(data: &mut Vec<T>, i: usize, j: usize)
    requires
        i < old(data).len(),
        j < old(data).len(),
    ensures
        final(data)@ == old(data)@.update(i as int, old(data)@[j as int]).update(
            j as int,
            old(data)@[i as int],
        ),
{
    data.swap(i, j);
}

impl<T> View for BinaryHeap<T> {
    type V = Multiset<T>;

    /// The items held, with their multiplicities.
    closed spec fn view(&self) -> Multiset<T> {
        self.data@.to_multiset()
    }
}

impl<T: Ord> BinaryHeap<T> {
    /// The representation invariant: the vector is in heap order.
    pub closed spec fn wf(&self) -> bool {
        heap_order(self.data@)
    }

    /// An empty heap.
    pub fn new() -> (heap: Self)
        ensures
            heap.wf(),
            heap@ == Multiset::<T>::empty(),
    {
        let heap = BinaryHeap { data: Vec::new() };
        proof {
            broadcast use vstd::seq_lib::group_to_multiset_ensures;
            assert(heap.data@.to_multiset() =~= Multiset::<T>::empty());
        }
        heap
    }

    /// Adds `item` to the heap.
    pub fn push(&mut self, item: T)
        requires
            total_order::<T>(),
            old(self).wf(),
        ensures
            final(self).wf(),
            final(self)@ == old(self)@.insert(item),
    {
        let ghost s = self.data@;
        self.data.push(item);
        proof {
            broadcast use vstd::seq_lib::group_to_multiset_ensures;
            let t = self.data@;
            assert(t.to_multiset() =~= s.to_multiset().insert(item));
            assert forall|i: int| 0 < i < t.len() && i != t.len() - 1 implies #[trigger] below_parent(
                t,
                i,
            ) by {
                assert(below_parent(s, i));
            }
        }
        let last = self.data.len() - 1;
        self.heapify_up(last);
    }

    /// Removes the greatest item and returns it, or returns `None` where the
    /// heap is empty.
    pub fn pop(&mut self) -> (r: Option<T>)
        requires
            total_order::<T>(),
            old(self).wf(),
        ensures
            final(self).wf(),
            old(self)@.len() == 0 ==> r is None && final(self)@ == old(self)@,
            old(self)@.len() > 0 ==> r is Some && is_greatest(r.unwrap(), old(self)@)
                && final(self)@ == old(self)@.remove(r.unwrap()),
    {
        let ghost s = self.data@;
        proof {
            broadcast use vstd::seq_lib::group_to_multiset_ensures;
            if s.len() > 0 {
                lemma_first_is_greatest(s);
            }
        }
        if self.data.len() > 1 {
            let last = self.data.len() - 1;
            swap_items(&mut self.data, 0, last);
            let ghost t = self.data@;
            let item = self.data.pop();
            proof {
                broadcast use vstd::seq_lib::group_to_multiset_ensures;
                let u = self.data@;
                lemma_swap_multiset(s, 0, last as int);
                assert(u =~= t.remove(last as int));
                assert(u.to_multiset() =~= s.to_multiset().remove(s[0]));
                assert forall|i: int| 0 < i < u.len() && (i - 1) / 2 != 0 implies #[trigger] below_parent(
                    u,
                    i,
                ) by {
                    assert(below_parent(s, i));
                }
            }
            self.heapify_down(0);
            item
        } else {
            let item = self.data.pop();
            proof {
                broadcast use vstd::seq_lib::group_to_multiset_ensures;
                if s.len() == 1 {
                    assert(self.data@ =~= s.remove(0));
                }
            }
            item
        }
    }

    /// Moves the item at `index` up until its parent is not ordered before it.
    fn heapify_up(&mut self, index: usize)
        requires
            total_order::<T>(),
            index < old(self).data@.len(),
            order_above(old(self).data@, index as int),
        ensures
            heap_order(final(self).data@),
            final(self).data@.to_multiset() == old(self).data@.to_multiset(),
    {
        let mut index = index;
        let mut rising = index > 0;
        while rising
            invariant
                total_order::<T>(),
                index < self.data@.len(),
                order_above(self.data@, index as int),
                self.data@.to_multiset() == old(self).data@.to_multiset(),
                !rising ==> heap_order(self.data@),
                rising ==> index > 0,
            decreases index + (if rising { 1int } else { 0int }),
        {
            let parent = (index - 1) / 2;
            let ghost s = self.data@;
            if less(&self.data[parent], &self.data[index]) {
                swap_items(&mut self.data, index, parent);
                proof {
                    broadcast use group_order;
                    let t = self.data@;
                    let k = index as int;
                    let p = parent as int;
                    lemma_swap_multiset(s, k, p);
                    assert forall|i: int| 0 < i < t.len() && i != p implies #[trigger] below_parent(
                        t,
                        i,
                    ) by {
                        if i == k {
                        } else if (i - 1) / 2 == k {
                            assert(le(s[i], s[(k - 1) / 2]));
                        } else if (i - 1) / 2 == p {
                            assert(below_parent(s, i));
                        } else {
                            assert(below_parent(s, i));
                        }
                    }
                    assert forall|i: int|
                        0 < i < t.len() && (i - 1) / 2 == p && p > 0 implies le(
                        #[trigger] t[i],
                        t[(p - 1) / 2],
                    ) by {
                        assert(below_parent(s, p));
                        if i != k {
                            assert(below_parent(s, i));
                        }
                    }
                }
                index = parent;
                rising = index > 0;
                proof {
                    if !rising {
                        assert forall|i: int| 0 < i < self.data@.len() implies #[trigger] below_parent(
                            self.data@,
                            i,
                        ) by {}
                    }
                }
            } else {
                rising = false;
                proof {
                    broadcast use group_order;
                    assert forall|i: int| 0 < i < s.len() implies #[trigger] below_parent(s, i) by {}
                }
            }
        }
        proof {
            if index == 0 {
                assert forall|i: int| 0 < i < self.data@.len() implies #[trigger] below_parent(
                    self.data@,
                    i,
                ) by {}
            }
        }
    }

    /// Moves the item at `index` down until neither child is ordered after it.
    fn heapify_down(&mut self, index: usize)
        requires
            total_order::<T>(),
            index < old(self).data@.len(),
            order_below(old(self).data@, index as int),
        ensures
            heap_order(final(self).data@),
            final(self).data@.to_multiset() == old(self).data@.to_multiset(),
    {
        let len = self.data.len();
        let mut index = index;
        let mut sinking = true;
        while sinking
            invariant
                total_order::<T>(),
                len == self.data@.len(),
                index < len,
                order_below(self.data@, index as int),
                self.data@.to_multiset() == old(self).data@.to_multiset(),
                !sinking ==> heap_order(self.data@),
            decreases len - index + (if sinking { 1int } else { 0int }),
        {
            let ghost s = self.data@;
            if index >= len / 2 {
                sinking = false;
                proof {
                    assert forall|i: int| 0 < i < s.len() implies #[trigger] below_parent(s, i) by {}
                }
            } else {
                let left = 2 * index + 1;
                let right = left + 1;
                let mut largest = index;
                if left < len && less(&self.data[largest], &self.data[left]) {
                    largest = left;
                }
                if right < len && less(&self.data[largest], &self.data[right]) {
                    largest = right;
                }
                if largest != index {
                    swap_items(&mut self.data, index, largest);
                    proof {
                        broadcast use group_order;
                        let t = self.data@;
                        let k = index as int;
                        let c = largest as int;
                        lemma_swap_multiset(s, k, c);
                        assert forall|i: int|
                            0 < i < t.len() && (i - 1) / 2 != c implies #[trigger] below_parent(
                            t,
                            i,
                        ) by {
                            if i == k {
                                assert(le(s[c], s[(k - 1) / 2]));
                            } else if (i - 1) / 2 == k {
                            } else {
                                assert(below_parent(s, i));
                            }
                        }
                        assert forall|i: int|
                            0 < i < t.len() && (i - 1) / 2 == c && c > 0 implies le(
                            #[trigger] t[i],
                            t[(c - 1) / 2],
                        ) by {
                            assert(below_parent(s, i));
                        }
                    }
                    index = largest;
                } else {
                    sinking = false;
                    proof {
                        broadcast use group_order;
                        assert forall|i: int| 0 < i < s.len() implies #[trigger] below_parent(
                            s,
                            i,
                        ) by {
                            if (i - 1) / 2 == index {
                                assert(i == left || i == right);
                            }
                        }
                    }
                }
            }
        }
    }

    /// The greatest item, which stays in the heap.
    pub fn peek(&self) -> (r: Option<&T>)
        requires
            total_order::<T>(),
            self.wf(),
        ensures
            self@.len() == 0 ==> r is None,
            self@.len() > 0 ==> r is Some && is_greatest(*r.unwrap(), self@),
    {
        proof {
            broadcast use vstd::seq_lib::group_to_multiset_ensures;
            if self.data@.len() > 0 {
                lemma_first_is_greatest(self.data@);
            }
        }
        if self.data.len() > 0 {
            Some(&self.data[0])
        } else {
            None
        }
    }

    /// Whether the heap holds no item.
    pub fn is_empty(&self) -> (r: bool)
        requires
            self.wf(),
        ensures
            r == (self@.len() == 0),
    {
        proof {
            broadcast use vstd::seq_lib::group_to_multiset_ensures;
        }
        self.data.len() == 0
    }
}

} // verus!
