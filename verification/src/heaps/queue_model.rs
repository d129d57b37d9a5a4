//! The mathematical model shared by the priority queues: a multiset of
//! payloads from which the least (or the greatest) one is extracted, and what
//! follows from that for sequences of insertions and extractions.
use vstd::prelude::*;
use vstd::multiset::Multiset;
use crate::order::{le, total_order, group_order};

verus! {

/// `m` occurs in `bag` and no payload of `bag` is ordered before it.
pub open spec fn is_least<T: Ord>(m: T, bag: Multiset<T>) -> bool {
    &&& bag.contains(m)
    &&& forall|x: T| #[trigger] bag.contains(x) ==> le(m, x)
}

/// `m` occurs in `bag` and no payload of `bag` is ordered after it.
pub open spec fn is_greatest<T: Ord>(m: T, bag: Multiset<T>) -> bool {
    &&& bag.contains(m)
    &&& forall|x: T| #[trigger] bag.contains(x) ==> le(x, m)
}

/// The least payload of a bag that is not empty.
pub open spec fn least<T: Ord>(bag: Multiset<T>) -> T {
    choose|m: T| is_least(m, bag)
}

/// The payloads that `n` extractions of the least payload yield, in the order
/// in which they come out. Extraction from an empty bag yields nothing.
pub open spec fn extract<T: Ord>(bag: Multiset<T>, n: nat) -> Seq<T>
    decreases n,
{
    if n == 0 || bag.len() == 0 {
        Seq::empty()
    } else {
        seq![least(bag)] + extract(bag.remove(least(bag)), (n - 1) as nat)
    }
}

/// What `n` extractions of the least payload leave in the bag.
pub open spec fn remainder<T: Ord>(bag: Multiset<T>, n: nat) -> Multiset<T>
    decreases n,
{
    if n == 0 || bag.len() == 0 {
        bag
    } else {
        remainder(bag.remove(least(bag)), (n - 1) as nat)
    }
}

/// The bag after a sequence of operations, where `Some(v)` inserts `v` and
/// `None` extracts the least payload.
pub open spec fn replay<T: Ord>(bag: Multiset<T>, ops: Seq<Option<T>>) -> Multiset<T>
    decreases ops.len(),
{
    if ops.len() == 0 {
        bag
    } else {
        let before = replay(bag, ops.drop_last());
        match ops.last() {
            Some(v) => before.insert(v),
            None => remainder(before, 1),
        }
    }
}

/// The number of insertions among `ops`.
pub open spec fn insertions<T>(ops: Seq<Option<T>>) -> nat
    decreases ops.len(),
{
    if ops.len() == 0 {
        0
    } else {
        insertions(ops.drop_last()) + (if ops.last() is Some { 1nat } else { 0nat })
    }
}

/// No extraction among `ops` meets an empty bag.
pub open spec fn never_starved<T: Ord>(bag: Multiset<T>, ops: Seq<Option<T>>) -> bool
    decreases ops.len(),
{
    if ops.len() == 0 {
        true
    } else {
        &&& never_starved(bag, ops.drop_last())
        &&& (ops.last() is None ==> replay(bag, ops.drop_last()).len() > 0)
    }
}

/// `s` is in non-decreasing order.
pub open spec fn ascending<T: Ord>(s: Seq<T>) -> bool {
    forall|i: int, j: int| 0 <= i <= j < s.len() ==> le(s[i], s[j])
}

/// A multiset has at most one least payload.
pub proof fn lemma_least_unique<T: Ord>(a: T, b: T, bag: Multiset<T>)
    requires
        total_order::<T>(),
        is_least(a, bag),
        is_least(b, bag),
    ensures
        a == b,
{
    broadcast use group_order;
}

/// A multiset has at most one greatest payload.
pub proof fn lemma_greatest_unique<T: Ord>(a: T, b: T, bag: Multiset<T>)
    requires
        total_order::<T>(),
        is_greatest(a, bag),
        is_greatest(b, bag),
    ensures
        a == b,
{
    broadcast use group_order;
}

/// Every bag that is not empty has a least payload.
pub proof fn lemma_least_exists<T: Ord>(bag: Multiset<T>)
    requires
        total_order::<T>(),
        bag.len() > 0,
    ensures
        is_least(least(bag), bag),
    decreases bag.len(),
{
    broadcast use group_order;
    let x = bag.choose();
    assert(bag.contains(x));
    let rest = bag.remove(x);
    assert forall|y: T| #[trigger] bag.contains(y) implies y == x || rest.contains(y) by {}
    if rest.len() == 0 {
        assert forall|y: T| #[trigger] bag.contains(y) implies le(x, y) by {
            if y != x {
                assert(rest.contains(y));
                assert(rest.count(y) <= rest.len());
            }
        }
        assert(is_least(x, bag));
    } else {
        lemma_least_exists(rest);
        let m = least(rest);
        let w = if le(x, m) { x } else { m };
        assert(bag.contains(m));
        assert forall|y: T| #[trigger] bag.contains(y) implies le(w, y) by {
            if y != x {
                assert(rest.contains(y));
                assert(le(m, y));
            }
        }
        assert(is_least(w, bag));
    }
}

/// Extraction yields as many payloads as were asked for, or all there are, and
/// leaves the others.
pub proof fn lemma_extract_len<T: Ord>(bag: Multiset<T>, n: nat)
    requires
        total_order::<T>(),
    ensures
        extract(bag, n).len() == (if n <= bag.len() { n } else { bag.len() }),
        remainder(bag, n).len() == bag.len() - extract(bag, n).len(),
        extract(bag, n).to_multiset().add(remainder(bag, n)) == bag,
    decreases n,
{
    broadcast use vstd::seq_lib::group_to_multiset_ensures;
    if n == 0 || bag.len() == 0 {
        assert(extract(bag, n).to_multiset().add(remainder(bag, n)) =~= bag);
    } else {
        lemma_least_exists(bag);
        let m = least(bag);
        let rest = bag.remove(m);
        lemma_extract_len(rest, (n - 1) as nat);
        let tail = extract(rest, (n - 1) as nat);
        let out = extract(bag, n);
        assert(out == seq![m] + tail);
        assert(out.drop_first() =~= tail);
        assert(out.first() == m);
        assert(out.to_multiset() =~= tail.to_multiset().insert(m)) by {
            vstd::seq_lib::lemma_seq_union_to_multiset_commutative(seq![m], tail);
            assert(seq![m] =~= Seq::<T>::empty().push(m));
            assert((tail + seq![m]) =~= tail.push(m));
        }
        let left = remainder(rest, (n - 1) as nat);
        assert(remainder(bag, n) == left);
        assert(bag.contains(m));
        assert(rest.insert(m) =~= bag);
        assert(tail.to_multiset().insert(m).add(left) =~= tail.to_multiset().add(left).insert(m));
        assert(out.to_multiset().add(remainder(bag, n)) =~= bag);
    }
}

/// Monotonic extraction: extractions that no insertion interrupts yield their
/// payloads in non-decreasing order.
pub proof fn lemma_extract_ascending<T: Ord>(bag: Multiset<T>, n: nat)
    requires
        total_order::<T>(),
    ensures
        ascending(extract(bag, n)),
        forall|i: int| 0 <= i < extract(bag, n).len() ==> bag.contains(#[trigger] extract(bag, n)[i]),
    decreases n,
{
    broadcast use group_order;
    if n == 0 || bag.len() == 0 {
    } else {
        lemma_least_exists(bag);
        let m = least(bag);
        let rest = bag.remove(m);
        lemma_extract_ascending(rest, (n - 1) as nat);
        let tail = extract(rest, (n - 1) as nat);
        let out = extract(bag, n);
        assert(out == seq![m] + tail);
        assert forall|i: int| 0 <= i < out.len() implies bag.contains(#[trigger] out[i]) by {
            if i > 0 {
                assert(out[i] == tail[i - 1]);
                assert(rest.contains(tail[i - 1]));
            }
        }
        assert forall|i: int, j: int| 0 <= i <= j < out.len() implies le(out[i], out[j]) by {
            if i == 0 {
                assert(bag.contains(out[j]));
            } else {
                assert(out[i] == tail[i - 1]);
                assert(out[j] == tail[j - 1]);
            }
        }
    }
}

/// Sort equivalence: inserting `values` in any order and then extracting as
/// many payloads yields the values in sorted order.
pub proof fn lemma_extract_sorts<T: Ord>(values: Seq<T>)
    requires
        total_order::<T>(),
    ensures
        replay(Multiset::empty(), values.map_values(|v: T| Some(v))) == values.to_multiset(),
        extract(values.to_multiset(), values.len()).len() == values.len(),
        extract(values.to_multiset(), values.len()).to_multiset() == values.to_multiset(),
        ascending(extract(values.to_multiset(), values.len())),
        remainder(values.to_multiset(), values.len()).len() == 0,
{
    broadcast use vstd::seq_lib::group_to_multiset_ensures;
    let bag = values.to_multiset();
    lemma_replay_insertions(values);
    lemma_extract_len(bag, values.len());
    lemma_extract_ascending(bag, values.len());
    let out = extract(bag, values.len());
    let left = remainder(bag, values.len());
    assert(left.len() == 0);
    assert(left =~= Multiset::<T>::empty());
    assert(out.to_multiset() =~= out.to_multiset().add(left));
}

/// Insertions alone build the multiset of the values inserted.
pub proof fn lemma_replay_insertions<T: Ord>(values: Seq<T>)
    ensures
        replay(Multiset::empty(), values.map_values(|v: T| Some(v))) == values.to_multiset(),
    decreases values.len(),
{
    broadcast use vstd::seq_lib::group_to_multiset_ensures;
    let ops = values.map_values(|v: T| Some(v));
    if values.len() == 0 {
        assert(values.to_multiset() =~= Multiset::<T>::empty());
    } else {
        let front = values.drop_last();
        lemma_replay_insertions(front);
        assert(ops.drop_last() =~= front.map_values(|v: T| Some(v)));
        assert(values =~= front.push(values.last()));
        assert(ops.last() == Some(values.last()));
    }
}

/// Count conservation: where no extraction meets an empty bag, the bag ends
/// with as many payloads as there were insertions, less the extractions; that
/// many further extractions empty it.
pub proof fn lemma_count_conservation<T: Ord>(ops: Seq<Option<T>>)
    requires
        total_order::<T>(),
        never_starved(Multiset::<T>::empty(), ops),
    ensures
        replay(Multiset::<T>::empty(), ops).len() == 2 * insertions(ops) - ops.len(),
        remainder(
            replay(Multiset::<T>::empty(), ops),
            replay(Multiset::<T>::empty(), ops).len(),
        ).len() == 0,
    decreases ops.len(),
{
    let bag = replay(Multiset::<T>::empty(), ops);
    if ops.len() > 0 {
        let front = ops.drop_last();
        lemma_count_conservation(front);
        let before = replay(Multiset::<T>::empty(), front);
        match ops.last() {
            Some(v) => {},
            None => {
                lemma_extract_len(before, 1);
            },
        }
    }
    lemma_extract_len(bag, bag.len());
}

/// Idempotent emptiness: extraction leaves an empty bag empty, however often
/// it is tried, and an insertion then makes the inserted payload the least.
pub proof fn lemma_empty_extraction<T: Ord>(n: nat, v: T)
    requires
        total_order::<T>(),
    ensures
        extract(Multiset::<T>::empty(), n) == Seq::<T>::empty(),
        remainder(Multiset::<T>::empty(), n) == Multiset::<T>::empty(),
        is_least(v, remainder(Multiset::<T>::empty(), n).insert(v)),
{
    broadcast use group_order;
    let bag = Multiset::<T>::empty().insert(v);
    assert forall|x: T| #[trigger] bag.contains(x) implies le(v, x) by {
        assert(x == v);
    }
}

} // verus!
