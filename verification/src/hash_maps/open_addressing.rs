//! A hash map with open addressing and linear probing: the search for a key
//! begins at its home slot and goes on from slot to slot, round the end of the
//! table, until it meets the key or an empty slot.
use vstd::prelude::*;
use crate::hash_maps::{home, hash_of, hash_key, lemma_home_in_table};

verus! {

/// A map from `u64` keys to values of type `V`.
#[derive(Debug, Clone)]
pub struct OpenAddressingHashMap<V> {
    data: Vec<Option<(u64, V)>>,
    capacity: usize,
    size: usize,
}

/// The slot `d` steps behind the slot `h` in a table of `cap` slots.
spec fn at(h: int, d: int, cap: int) -> int {
    if h + d < cap {
        h + d
    } else {
        h + d - cap
    }
}

/// The number of steps from the slot `h` to the slot `j`.
spec fn dist(h: int, j: int, cap: int) -> int {
    if j >= h {
        j - h
    } else {
        j - h + cap
    }
}

/// The number of slots of `s` that hold an entry.
spec fn count<V>(s: Seq<Option<(u64, V)>>) -> nat
    decreases s.len(),
{
    if s.len() == 0 {
        0
    } else {
        count(s.drop_last()) + (if s.last() is Some { 1nat } else { 0nat })
    }
}

/// The search for the key of the entry in slot `j` meets no empty slot before
/// it comes to `j`.
spec fn reachable<V>(s: Seq<Option<(u64, V)>>, cap: usize, j: int) -> bool {
    let h = home(s[j].unwrap().0, cap);
    forall|e: int| 0 <= e < dist(h, j, cap as int) ==> (#[trigger] s[at(h, e, cap as int)]) is Some
}

/// No two slots hold the same key.
spec fn distinct<V>(s: Seq<Option<(u64, V)>>) -> bool {
    forall|i: int, j: int|
        0 <= i < s.len() && 0 <= j < s.len() && i != j && (#[trigger] s[i]) is Some && (
        #[trigger] s[j]) is Some ==> s[i].unwrap().0 != s[j].unwrap().0
}

/// The table holds what `model` maps, and nothing else.
spec fn holds<V>(s: Seq<Option<(u64, V)>>, model: Map<u64, V>) -> bool {
    &&& forall|j: int|
        0 <= j < s.len() && (#[trigger] s[j]) is Some ==> model.contains_key(s[j].unwrap().0)
            && model[s[j].unwrap().0] == s[j].unwrap().1
    &&& forall|k: u64| #[trigger]
        model.contains_key(k) ==> exists|j: int|
            0 <= j < s.len() && (#[trigger] s[j]) is Some && s[j].unwrap().0 == k
}

/// The map that the table stands for: each key that stands in a slot is
/// mapped to the value that stands with it.
spec fn content<V>(s: Seq<Option<(u64, V)>>) -> Map<u64, V> {
    Map::new(
        |k: u64| exists|j: int| 0 <= j < s.len() && (#[trigger] s[j]) is Some && s[j].unwrap().0 == k,
        |k: u64|
            s[choose|j: int| 0 <= j < s.len() && (#[trigger] s[j]) is Some && s[j].unwrap().0
                == k].unwrap().1,
    )
}

/// A map of which the table holds the entries is the map that the table
/// stands for.
proof fn lemma_holds_unique<V>(s: Seq<Option<(u64, V)>>, model: Map<u64, V>)
    requires
        holds(s, model),
    ensures
        content(s) == model,
{
    let c = content(s);
    assert forall|k: u64| c.contains_key(k) == model.contains_key(k) by {
        if c.contains_key(k) {
            let j = choose|j: int| 0 <= j < s.len() && (#[trigger] s[j]) is Some && s[j].unwrap().0
                == k;
            assert(s[j] is Some);
        }
    }
    assert forall|k: u64| c.contains_key(k) implies c[k] == model[k] by {
        let j = choose|j: int| 0 <= j < s.len() && (#[trigger] s[j]) is Some && s[j].unwrap().0
            == k;
        assert(s[j] is Some);
    }
    assert(c =~= model);
}

/// The table is sound: a table of `cap` slots in which every entry can be
/// reached from its home slot and no key stands twice.
spec fn sound<V>(s: Seq<Option<(u64, V)>>, cap: usize) -> bool {
    &&& cap >= 1
    &&& s.len() == cap
    &&& distinct(s)
    &&& forall|j: int| 0 <= j < s.len() && (#[trigger] s[j]) is Some ==> reachable(s, cap, j)
}

/// A table with fewer entries than slots has an empty slot.
proof fn lemma_empty_slot<V>(s: Seq<Option<(u64, V)>>) -> (j: int)
    requires
        count(s) < s.len(),
    ensures
        0 <= j < s.len(),
        s[j] is None,
    decreases s.len(),
{
    if s.last() is None {
        s.len() - 1
    } else {
        lemma_empty_slot(s.drop_last())
    }
}

/// A table counts no more entries than it has slots.
proof fn lemma_count_bound<V>(s: Seq<Option<(u64, V)>>)
    ensures
        count(s) <= s.len(),
    decreases s.len(),
{
    if s.len() > 0 {
        lemma_count_bound(s.drop_last());
    }
}

/// A table of empty slots counts no entry.
proof fn lemma_count_none<V>(s: Seq<Option<(u64, V)>>)
    requires
        forall|j: int| 0 <= j < s.len() ==> (#[trigger] s[j]) is None,
    ensures
        count(s) == 0,
    decreases s.len(),
{
    if s.len() > 0 {
        lemma_count_none(s.drop_last());
    }
}

/// How the count changes where one slot changes.
proof fn lemma_count_update<V>(s: Seq<Option<(u64, V)>>, j: int, x: Option<(u64, V)>)
    requires
        0 <= j < s.len(),
    ensures
        count(s.update(j, x)) + (if s[j] is Some { 1nat } else { 0nat }) == count(s) + (if x is Some {
            1nat
        } else {
            0nat
        }),
    decreases s.len(),
{
    let t = s.update(j, x);
    if j == s.len() - 1 {
        assert(t.drop_last() =~= s.drop_last());
    } else {
        lemma_count_update(s.drop_last(), j, x);
        assert(t.drop_last() =~= s.drop_last().update(j, x));
    }
}

/// The first `i` slots count no more entries than the whole table.
proof fn lemma_count_prefix<V>(s: Seq<Option<(u64, V)>>, i: int)
    requires
        0 <= i <= s.len(),
    ensures
        count(s.subrange(0, i)) <= count(s),
    decreases s.len(),
{
    if i == s.len() {
        assert(s.subrange(0, i) =~= s);
    } else {
        lemma_count_prefix(s.drop_last(), i);
        assert(s.drop_last().subrange(0, i) =~= s.subrange(0, i));
    }
}

/// An entry stored in the slot where the search for its key ended keeps the
/// table sound, and makes it hold what the map holds with that entry.
proof fn lemma_place<V>(
    s: Seq<Option<(u64, V)>>,
    t: Seq<Option<(u64, V)>>,
    cap: usize,
    model: Map<u64, V>,
    key: u64,
    value: V,
    found: bool,
    index: int,
)
    requires
        sound(s, cap),
        holds(s, model),
        0 <= index < cap,
        found ==> s[index] is Some && s[index].unwrap().0 == key,
        !found ==> s[index] is None,
        forall|e: int|
            0 <= e < dist(home(key, cap), index, cap as int) ==> (#[trigger] s[at(
                home(key, cap),
                e,
                cap as int,
            )]) is Some && s[at(home(key, cap), e, cap as int)].unwrap().0 != key,
        t == s.update(index, Some((key, value))),
    ensures
        sound(t, cap),
        holds(t, model.insert(key, value)),
        found == model.contains_key(key),
        count(t) == count(s) + (if found { 0nat } else { 1nat }),
{
    lemma_home_in_table(key, cap);
    lemma_count_update(s, index, Some((key, value)));
    let c = cap as int;
    if !found {
        lemma_absent(s, cap, key, index);
        if model.contains_key(key) {
            let j = choose|j: int| 0 <= j < s.len() && (#[trigger] s[j]) is Some && s[j].unwrap().0
                == key;
            assert(s[j].unwrap().0 != key);
        }
    }
    assert forall|i: int, j: int|
        0 <= i < t.len() && 0 <= j < t.len() && i != j && (#[trigger] t[i]) is Some && (
        #[trigger] t[j]) is Some implies t[i].unwrap().0 != t[j].unwrap().0 by {
        if i == index {
            assert(s[j] is Some);
            if found {
                assert(s[i] is Some);
            }
        } else if j == index {
            assert(s[i] is Some);
            if found {
                assert(s[j] is Some);
            }
        } else {
            assert(s[i] is Some && s[j] is Some);
        }
    }
    assert forall|j: int| 0 <= j < t.len() && (#[trigger] t[j]) is Some implies reachable(
        t,
        cap,
        j,
    ) by {
        let k = t[j].unwrap().0;
        lemma_home_in_table(k, cap);
        let h = home(k, cap);
        assert forall|e: int| 0 <= e < dist(h, j, c) implies (#[trigger] t[at(h, e, c)]) is Some by {
            if j == index {
                assert(s[at(h, e, c)] is Some);
            } else {
                assert(s[j] is Some);
                assert(reachable(s, cap, j));
                assert(s[at(h, e, c)] is Some);
            }
        }
    }
    let model2 = model.insert(key, value);
    assert forall|j: int| 0 <= j < t.len() && (#[trigger] t[j]) is Some implies model2.contains_key(
        t[j].unwrap().0,
    ) && model2[t[j].unwrap().0] == t[j].unwrap().1 by {
        if j != index {
            assert(s[j] is Some);
            if s[j].unwrap().0 == key {
                if found {
                    assert(s[index] is Some);
                }
            }
        }
    }
    assert forall|k: u64| #[trigger] model2.contains_key(k) implies exists|j: int|
        0 <= j < t.len() && (#[trigger] t[j]) is Some && t[j].unwrap().0 == k by {
        if k == key {
            assert(t[index] is Some && t[index].unwrap().0 == k);
        } else {
            let j = choose|j: int| 0 <= j < s.len() && (#[trigger] s[j]) is Some && s[j].unwrap().0
                == k;
            assert(j != index);
            assert(t[j] is Some && t[j].unwrap().0 == k);
        }
    }
}

/// The slots from `r` steps behind `start` up to the slot `j` all hold an
/// entry.
spec fn in_run<V>(s: Seq<Option<(u64, V)>>, cap: int, start: int, r: int, j: int) -> bool {
    &&& r <= dist(start, j, cap)
    &&& forall|e: int| r <= e <= dist(start, j, cap) ==> (#[trigger] s[at(start, e, cap)]) is Some
}

/// While the entries behind a slot that was emptied are stored anew: the
/// entry in slot `j` can be reached, or waits for its turn in the run of
/// entries that begins `r` steps behind `start`.
spec fn settled<V>(s: Seq<Option<(u64, V)>>, cap: usize, start: int, r: int, j: int) -> bool {
    reachable(s, cap, j) || in_run(s, cap as int, start, r, j)
}

/// An entry whose search passes the slot `r` steps behind `start` stands in
/// the run of entries that begins there, where the slot `le` steps behind
/// `start` is empty.
proof fn lemma_crossing<V>(
    s: Seq<Option<(u64, V)>>,
    cap: usize,
    start: int,
    r: int,
    le: int,
    j: int,
)
    requires
        cap >= 1,
        s.len() == cap,
        0 <= start < cap,
        0 <= r < le < cap,
        s[at(start, le, cap as int)] is None,
        0 <= j < cap,
        s[j] is Some,
        reachable(s, cap, j),
        dist(home(s[j].unwrap().0, cap), at(start, r, cap as int), cap as int) < dist(
            home(s[j].unwrap().0, cap),
            j,
            cap as int,
        ),
    ensures
        in_run(s, cap as int, start, r, j),
        dist(start, j, cap as int) > r,
{
    let c = cap as int;
    let k = s[j].unwrap().0;
    lemma_home_in_table(k, cap);
    let h = home(k, cap);
    let hole = at(start, r, c);
    let dc = dist(h, hole, c);
    let dj = dist(h, j, c);
    let m = dj - dc;
    assert(at(h, dc, c) == hole);
    assert(at(h, dj, c) == j);
    assert forall|x: int| 0 <= x <= m implies s[at(hole, x, c)] is Some by {
        assert(at(hole, x, c) == at(h, dc + x, c));
        if x < m {
            assert(s[at(h, dc + x, c)] is Some);
        }
    }
    if r + m >= le {
        let x = le - r;
        assert(at(hole, x, c) == at(start, le, c));
        assert(s[at(hole, x, c)] is Some);
    }
    assert(at(hole, m, c) == at(start, r + m, c));
    assert(dist(start, j, c) == r + m);
    assert forall|e: int| r <= e <= dist(start, j, c) implies (#[trigger] s[at(start, e, c)]) is Some by {
        assert(at(start, e, c) == at(hole, e - r, c));
        assert(s[at(hole, e - r, c)] is Some);
    }
}

/// One step of storing anew the entries behind an emptied slot: the entry
/// `r` steps behind `start` has left its slot `c` and stands in the slot `p`,
/// where it can be reached; every other entry is then settled for the turn of
/// the next slot.
proof fn lemma_turn<V>(
    s: Seq<Option<(u64, V)>>,
    t: Seq<Option<(u64, V)>>,
    cap: usize,
    start: int,
    r: int,
    le: int,
    p: int,
    moved: bool,
)
    requires
        cap >= 1,
        s.len() == cap,
        t.len() == cap,
        0 <= start < cap,
        0 <= r < le < cap,
        s[at(start, le, cap as int)] is None,
        s[at(start, r, cap as int)] is Some,
        forall|j: int| 0 <= j < cap && (#[trigger] s[j]) is Some ==> settled(s, cap, start, r, j),
        0 <= p < cap,
        moved ==> t[p] is Some && reachable(t, cap, p) && (p == at(start, r, cap as int)
            || s[p] is None),
        moved && p != at(start, r, cap as int) ==> t[at(start, r, cap as int)] is None,
        !moved ==> t[at(start, r, cap as int)] is None,
        forall|j: int|
            0 <= j < cap && j != at(start, r, cap as int) && !(moved && j == p) ==> #[trigger] t[j]
                == s[j],
    ensures
        forall|j: int|
            0 <= j < cap && (#[trigger] t[j]) is Some ==> settled(t, cap, start, r + 1, j),
{
    let c = cap as int;
    let hole = at(start, r, c);
    assert forall|j: int| 0 <= j < cap && (#[trigger] t[j]) is Some implies settled(
        t,
        cap,
        start,
        r + 1,
        j,
    ) by {
        if moved && j == p {
        } else {
            assert(j != hole);
            assert(t[j] == s[j]);
            assert(s[j] is Some);
            assert(settled(s, cap, start, r, j));
            let k = s[j].unwrap().0;
            lemma_home_in_table(k, cap);
            let h = home(k, cap);
            if !in_run(s, c, start, r, j) {
                if dist(h, hole, c) < dist(h, j, c) {
                    lemma_crossing(s, cap, start, r, le, j);
                } else {
                    assert forall|e: int| 0 <= e < dist(h, j, c) implies (#[trigger] t[at(
                        h,
                        e,
                        c,
                    )]) is Some by {
                        assert(s[at(h, e, c)] is Some);
                        assert(at(h, dist(h, hole, c), c) == hole);
                        assert(at(h, e, c) != hole);
                    }
                    assert(reachable(t, cap, j));
                }
            }
            if in_run(s, c, start, r, j) {
                let ej = dist(start, j, c);
                assert(at(start, ej, c) == j);
                assert(ej != r);
                assert forall|e: int| r + 1 <= e <= ej implies (#[trigger] t[at(start, e, c)]) is Some by {
                    assert(s[at(start, e, c)] is Some);
                    assert(at(start, e, c) != hole);
                }
                assert(in_run(t, c, start, r + 1, j));
            }
        }
    }
}

/// A table from which an entry moves to another slot holds the same entries.
proof fn lemma_moved<V>(
    s: Seq<Option<(u64, V)>>,
    t: Seq<Option<(u64, V)>>,
    model: Map<u64, V>,
    c: int,
    p: int,
)
    requires
        s.len() == t.len(),
        0 <= c < s.len(),
        0 <= p < s.len(),
        s[c] is Some,
        p == c || s[p] is None,
        t == s.update(c, None).update(p, s[c]),
        distinct(s),
        holds(s, model),
    ensures
        distinct(t),
        holds(t, model),
        count(t) == count(s),
{
    let u = s.update(c, None);
    lemma_count_update(s, c, None);
    lemma_count_update(u, p, s[c]);
    assert forall|i: int, j: int|
        0 <= i < t.len() && 0 <= j < t.len() && i != j && (#[trigger] t[i]) is Some && (
        #[trigger] t[j]) is Some implies t[i].unwrap().0 != t[j].unwrap().0 by {
        assert(s[c] is Some);
        if i == p {
            assert(s[j] is Some);
        } else if j == p {
            assert(s[i] is Some);
        } else {
            assert(s[i] is Some && s[j] is Some);
        }
    }
    assert forall|j: int| 0 <= j < t.len() && (#[trigger] t[j]) is Some implies model.contains_key(
        t[j].unwrap().0,
    ) && model[t[j].unwrap().0] == t[j].unwrap().1 by {
        assert(s[c] is Some);
        if j != p {
            assert(s[j] is Some);
        }
    }
    assert forall|k: u64| #[trigger] model.contains_key(k) implies exists|j: int|
        0 <= j < t.len() && (#[trigger] t[j]) is Some && t[j].unwrap().0 == k by {
        let j = choose|j: int| 0 <= j < s.len() && (#[trigger] s[j]) is Some && s[j].unwrap().0
            == k;
        if j == c {
            assert(t[p] is Some && t[p].unwrap().0 == k);
        } else {
            assert(t[j] is Some && t[j].unwrap().0 == k);
        }
    }
}

/// A table from which the entry of a key is taken holds what the map holds
/// without that key.
proof fn lemma_taken<V>(s: Seq<Option<(u64, V)>>, model: Map<u64, V>, c: int)
    requires
        0 <= c < s.len(),
        s[c] is Some,
        distinct(s),
        holds(s, model),
    ensures
        distinct(s.update(c, None)),
        holds(s.update(c, None), model.remove(s[c].unwrap().0)),
        count(s.update(c, None)) + 1 == count(s),
        model.contains_key(s[c].unwrap().0),
        model[s[c].unwrap().0] == s[c].unwrap().1,
{
    let t = s.update(c, None);
    let key = s[c].unwrap().0;
    let model2 = model.remove(key);
    lemma_count_update(s, c, None);
    assert forall|i: int, j: int|
        0 <= i < t.len() && 0 <= j < t.len() && i != j && (#[trigger] t[i]) is Some && (
        #[trigger] t[j]) is Some implies t[i].unwrap().0 != t[j].unwrap().0 by {
        assert(s[i] is Some && s[j] is Some);
    }
    assert forall|j: int| 0 <= j < t.len() && (#[trigger] t[j]) is Some implies model2.contains_key(
        t[j].unwrap().0,
    ) && model2[t[j].unwrap().0] == t[j].unwrap().1 by {
        assert(s[j] is Some);
        assert(s[c] is Some);
    }
    assert forall|k: u64| #[trigger] model2.contains_key(k) implies exists|j: int|
        0 <= j < t.len() && (#[trigger] t[j]) is Some && t[j].unwrap().0 == k by {
        let j = choose|j: int| 0 <= j < s.len() && (#[trigger] s[j]) is Some && s[j].unwrap().0
            == k;
        assert(t[j] is Some && t[j].unwrap().0 == k);
    }
    assert(s[c] is Some);
}

/// The slot behind `index`, round the end of the table.
fn next_slot(index: usize, capacity: usize) -> (n: usize)
    requires
        index < capacity,
    ensures
        n == at(index as int, 1, capacity as int),
        n < capacity,
{
    if index + 1 < capacity {
        index + 1
    } else {
        0
    }
}

impl<V> View for OpenAddressingHashMap<V> {
    type V = Map<u64, V>;

    /// The map from keys to values.
    closed spec fn view(&self) -> Map<u64, V> {
        content(self.data@)
    }
}

impl<V> OpenAddressingHashMap<V> {
    /// The representation invariant: at most half of the slots hold an entry,
    /// `size` counts them, every entry can be reached from its home slot, no
    /// key stands twice, and the entries are what the map maps.
    pub closed spec fn wf(&self) -> bool {
        &&& sound(self.data@, self.capacity)
        &&& self.size == count(self.data@)
        &&& 2 * self.size <= self.capacity
        &&& holds(self.data@, self@)
        &&& self@.dom().finite()
        &&& self.size == self@.len()
    }

    /// The number of slots of the table.
    pub closed spec fn spec_capacity(&self) -> nat {
        self.capacity as nat
    }

    /// The number of slots of the table.
    pub fn capacity(&self) -> (c: usize)
        ensures
            c == self.spec_capacity(),
    {
        self.capacity
    }

    /// The number of keys in the map.
    pub fn len(&self) -> (n: usize)
        requires
            self.wf(),
        ensures
            n == self@.len(),
    {
        self.size
    }

    /// An empty map with a table of `capacity` slots.
    pub fn new(capacity: usize) -> (map: Self)
        requires
            capacity >= 1,
        ensures
            map.wf(),
            map@ == Map::<u64, V>::empty(),
            map.spec_capacity() == capacity,
    {
        let data = Self::empty_table(capacity);
        proof {
            lemma_count_none(data@);
        }
        let map = OpenAddressingHashMap { data, capacity, size: 0 };
        proof {
            assert(holds(map.data@, Map::<u64, V>::empty()));
            lemma_holds_unique(map.data@, Map::<u64, V>::empty());
        }
        map
    }

    /// A table of `capacity` empty slots.
    fn empty_table(capacity: usize) -> (data: Vec<Option<(u64, V)>>)
        ensures
            data@.len() == capacity,
            forall|j: int| 0 <= j < capacity ==> (#[trigger] data@[j]) is None,
    {
        let mut data: Vec<Option<(u64, V)>> = Vec::new();
        let mut i: usize = 0;
        while i < capacity
            invariant
                i <= capacity,
                data@.len() == i,
                forall|j: int| 0 <= j < i ==> (#[trigger] data@[j]) is None,
            decreases capacity - i,
        {
            data.push(None);
            i += 1;
        }
        data
    }

    /// Maps `key` to `value`, in place of what it was mapped to before. The
    /// table is doubled first where half of its slots hold an entry.
    pub fn insert(&mut self, key: u64, value: V)
        requires
            old(self).wf(),
            2 * old(self).spec_capacity() <= usize::MAX,
        ensures
            final(self).wf(),
            final(self)@ == old(self)@.insert(key, value),
            final(self).spec_capacity() == (if old(self)@.len() >= old(self).spec_capacity() / 2 {
                2 * old(self).spec_capacity()
            } else {
                old(self).spec_capacity()
            }),
    {
        if self.size >= self.capacity / 2 {
            self.resize(self.capacity * 2);
        }
        let ghost model = self@;
        self.place(key, value, Ghost(model));
        proof {
            lemma_holds_unique(self.data@, model.insert(key, value));
        }
    }

    /// Stores the entry in the slot of its key, or else in the first empty
    /// slot behind the home slot of its key.
    fn place(&mut self, key: u64, value: V, Ghost(model): Ghost<Map<u64, V>>)
        requires
            sound(old(self).data@, old(self).capacity),
            old(self).size == count(old(self).data@),
            old(self).size < old(self).capacity,
            holds(old(self).data@, model),
            model.dom().finite(),
            old(self).size == model.len(),
        ensures
            sound(final(self).data@, final(self).capacity),
            final(self).size == count(final(self).data@),
            holds(final(self).data@, model.insert(key, value)),
            model.insert(key, value).dom().finite(),
            final(self).size == model.insert(key, value).len(),
            final(self).capacity == old(self).capacity,
            final(self).size == old(self).size + (if model.contains_key(key) {
                0nat
            } else {
                1nat
            }),
    {
        let ghost s = self.data@;
        let (found, index) = self.find_slot(&key);
        proof {
            lemma_count_bound(s);
        }
        self.data[index] = Some((key, value));
        proof {
            lemma_place(s, self.data@, self.capacity, model, key, value, found, index as int);
            lemma_count_bound(self.data@);
        }
        if !found {
            self.size += 1;
        }
    }

    /// Moves the entries into a new table of `new_capacity` slots.
    fn resize(&mut self, new_capacity: usize)
        requires
            old(self).wf(),
            new_capacity >= 1,
            2 * old(self).size <= new_capacity,
        ensures
            final(self).wf(),
            final(self)@ == old(self)@,
            final(self).capacity == new_capacity,
            final(self).size == old(self).size,
    {
        let ghost od = self.data@;
        let ghost model0 = self@;
        let mut old_data = Self::empty_table(new_capacity);
        core::mem::swap(&mut self.data, &mut old_data);
        self.capacity = new_capacity;
        self.size = 0;
        let ghost model = Map::<u64, V>::empty();
        proof {
            lemma_count_none(self.data@);
            assert(od.subrange(0, 0) =~= Seq::<Option<(u64, V)>>::empty());
        }
        let n = old_data.len();
        let mut i: usize = 0;
        while i < n
            invariant
                i <= n,
                n == od.len(),
                old_data@.len() == n,
                forall|j: int| i <= j < n ==> old_data@[j] == od[j],
                distinct(od),
                2 * count(od) <= new_capacity,
                new_capacity >= 1,
                self.capacity == new_capacity,
                sound(self.data@, self.capacity),
                self.size == count(self.data@),
                self.size == count(od.subrange(0, i as int)),
                holds(self.data@, model),
                model.dom().finite(),
                self.size == model.len(),
                forall|k: u64| #[trigger]
                    model.contains_key(k) ==> exists|j: int|
                        0 <= j < i && (#[trigger] od[j]) is Some && od[j].unwrap() == (
                            k,
                            model[k],
                        ),
                forall|j: int|
                    0 <= j < i && (#[trigger] od[j]) is Some ==> model.contains_key(
                        od[j].unwrap().0,
                    ) && model[od[j].unwrap().0] == od[j].unwrap().1,
            decreases n - i,
        {
            let ghost model1 = model;
            proof {
                lemma_count_prefix(od, i as int);
                assert(od.subrange(0, i + 1).drop_last() =~= od.subrange(0, i as int));
            }
            let entry = old_data[i].take();
            match entry {
                Some(pair) => {
                    proof {
                        if model1.contains_key(pair.0) {
                            let j = choose|j: int|
                                0 <= j < i && (#[trigger] od[j]) is Some && od[j].unwrap() == (
                                    pair.0,
                                    model1[pair.0],
                                );
                            assert(od[i as int] is Some);
                        }
                    }
                    self.place(pair.0, pair.1, Ghost(model1));
                    proof {
                        model = model1.insert(pair.0, pair.1);
                    }
                    proof {
                        assert forall|k: u64| #[trigger]
                            model.contains_key(k) implies exists|j: int|
                            0 <= j < i + 1 && (#[trigger] od[j]) is Some && od[j].unwrap() == (
                                k,
                                model[k],
                            ) by {
                            if k == pair.0 {
                                assert(od[i as int] is Some && od[i as int].unwrap() == (
                                    k,
                                    model[k],
                                ));
                            } else {
                                assert(model1.contains_key(k));
                                let j = choose|j: int|
                                    0 <= j < i && (#[trigger] od[j]) is Some && od[j].unwrap() == (
                                        k,
                                        model1[k],
                                    );
                                assert(od[j] is Some && od[j].unwrap() == (k, model[k]));
                            }
                        }
                        assert forall|j: int|
                            0 <= j < i + 1 && (#[trigger] od[j]) is Some implies model.contains_key(
                            od[j].unwrap().0,
                        ) && model[od[j].unwrap().0] == od[j].unwrap().1 by {
                            if j < i {
                                assert(od[i as int] is Some);
                            }
                        }
                    }
                },
                None => {},
            }
            i += 1;
        }
        proof {
            assert(od.subrange(0, n as int) =~= od);
            assert(model =~= model0) by {
                assert forall|k: u64| model.contains_key(k) <==> model0.contains_key(k) by {
                    if model.contains_key(k) {
                        let j = choose|j: int|
                            0 <= j < n && (#[trigger] od[j]) is Some && od[j].unwrap() == (
                                k,
                                model[k],
                            );
                        assert(od[j] is Some);
                    }
                    if model0.contains_key(k) {
                        let j = choose|j: int|
                            0 <= j < od.len() && (#[trigger] od[j]) is Some && od[j].unwrap().0 == k;
                        assert(od[j] is Some);
                    }
                }
                assert forall|k: u64| model.contains_key(k) implies model[k]
                    == model0[k] by {
                    let j = choose|j: int|
                        0 <= j < n && (#[trigger] od[j]) is Some && od[j].unwrap() == (
                            k,
                            model[k],
                        );
                    assert(od[j] is Some);
                }
            }
            lemma_holds_unique(self.data@, model0);
        }
    }

    /// Takes `key` out of the map and returns the value it was mapped to, if
    /// any. The entries that stand behind its slot are stored anew, so that
    /// each can still be reached from its home slot.
    pub fn remove(&mut self, key: &u64) -> (r: Option<V>)
        requires
            old(self).wf(),
        ensures
            final(self).wf(),
            final(self)@ == old(self)@.remove(*key),
            final(self).spec_capacity() == old(self).spec_capacity(),
            match r {
                Some(v) => old(self)@.contains_key(*key) && v == old(self)@[*key],
                None => !old(self)@.contains_key(*key),
            },
    {
        let ghost od = self.data@;
        let ghost model0 = self@;
        let (found, index) = self.find_slot(key);
        if !found {
            proof {
                lemma_absent(od, self.capacity, *key, index as int);
                if model0.contains_key(*key) {
                    let j = choose|j: int|
                        0 <= j < od.len() && (#[trigger] od[j]) is Some && od[j].unwrap().0 == *key;
                    assert(od[j].unwrap().0 != *key);
                }
                assert(model0.remove(*key) =~= model0);
            }
            return None;
        }
        proof {
            lemma_taken(od, model0, index as int);
            lemma_count_bound(od);
        }
        let entry = self.data[index].take();
        self.size -= 1;
        let ghost model1 = model0.remove(*key);
        proof {
            assert(self.data@ =~= od.update(index as int, None));
        }
        self.rehash(index, Ghost(od), Ghost(model1));
        match entry {
            Some(pair) => Some(pair.1),
            None => None,
        }
    }

    /// Stores anew each entry of the run of entries behind the slot
    /// `start_index`, which has just been emptied.
    fn rehash(
        &mut self,
        start_index: usize,
        Ghost(od): Ghost<Seq<Option<(u64, V)>>>,
        Ghost(model): Ghost<Map<u64, V>>,
    )
        requires
            sound(od, old(self).capacity),
            start_index < old(self).capacity,
            od[start_index as int] is Some,
            old(self).data@ == od.update(start_index as int, None),
            distinct(old(self).data@),
            holds(old(self).data@, model),
            old(self).size == count(old(self).data@),
            2 * (old(self).size + 1) <= old(self).capacity,
            model.dom().finite(),
            old(self).size == model.len(),
        ensures
            final(self).wf(),
            final(self)@ == model,
            final(self).capacity == old(self).capacity,
    {
        let ghost cap = self.capacity;
        let ghost c = cap as int;
        let ghost start = start_index as int;
        proof {
            lemma_count_update(od, start, None);
            lemma_count_bound(od);
        }
        let ghost free = lemma_empty_slot(od);
        let ghost le = dist(start, free, c);
        let ghost r: int = 1;
        proof {
            assert(free != start);
            assert(at(start, le, c) == free);
            assert(at(start, 0, c) == start);
            assert forall|j: int| 0 <= j < cap && (#[trigger] od[j]) is Some implies settled(
                od,
                cap,
                start,
                0,
                j,
            ) by {}
            lemma_turn(od, self.data@, cap, start, 0, le, 0, false);
        }
        let mut index = next_slot(start_index, self.capacity);
        loop
            invariant
                cap == self.capacity,
                self.capacity == old(self).capacity,
                c == cap as int,
                cap >= 1,
                sound(od, cap),
                self.data@.len() == cap,
                0 <= start < c,
                1 <= r <= le < c,
                index == at(start, r, c),
                index < cap,
                od[at(start, le, c)] is None,
                distinct(self.data@),
                holds(self.data@, model),
                self.size == count(self.data@),
                self.size == old(self).size,
                old(self).size == model.len(),
                model.dom().finite(),
                2 * (self.size + 1) <= cap,
                forall|j: int| 0 <= j < cap && (#[trigger] od[j]) is None ==> self.data@[j] is None,
                forall|e: int| r <= e < le ==> self.data@[at(start, e, c)] == od[at(start, e, c)],
                forall|j: int|
                    0 <= j < cap && (#[trigger] self.data@[j]) is Some ==> settled(
                        self.data@,
                        cap,
                        start,
                        r,
                        j,
                    ),
            decreases le - r,
        {
            let ghost s = self.data@;
            let entry = self.data[index].take();
            match entry {
                None => {
                    proof {
                        assert(self.data@ =~= s);
                        assert forall|j: int|
                            0 <= j < cap && (#[trigger] s[j]) is Some implies reachable(
                            s,
                            cap,
                            j,
                        ) by {
                            assert(settled(s, cap, start, r, j));
                            if in_run(s, c, start, r, j) {
                                assert(s[at(start, r, c)] is Some);
                            }
                        }
                        lemma_holds_unique(self.data@, model);
                    }
                    return ;
                },
                Some(pair) => {
                    let ghost s1 = self.data@;
                    proof {
                        assert(s[index as int] is Some);
                        assert(s1 =~= s.update(index as int, None));
                        lemma_count_update(s, index as int, None);
                        lemma_count_bound(s1);
                        assert(od[at(start, le, c)] is None);
                        assert(r < le);
                        assert(s[index as int] == od[index as int]);
                        assert(reachable(od, cap, index as int));
                    }
                    self.size -= 1;
                    let spot = self.store(pair.0, pair.1);
                    proof {
                        let t = self.data@;
                        let p = spot@;
                        let k = pair.0;
                        lemma_home_in_table(k, cap);
                        let h = home(k, cap);
                        let dp = dist(h, p, c);
                        let dc = dist(h, index as int, c);
                        assert(at(h, dc, c) == index);
                        assert(at(h, dp, c) == p);
                        assert(s1[p] is None) by {
                            if s1[p] is Some {
                                assert(s[p] is Some);
                                assert(p != index);
                                assert(s[index as int] is Some);
                            }
                        }
                        assert(dp <= dc) by {
                            if dp > dc {
                                assert(s1[at(h, dc, c)] is Some);
                            }
                        }
                        assert(od[p] is Some) by {
                            if dp < dc {
                                assert(od[at(h, dp, c)] is Some);
                            }
                        }
                        assert(t =~= s.update(index as int, None).update(p, s[index as int]));
                        lemma_moved(s, t, model, index as int, p);
                        assert(reachable(t, cap, p)) by {
                            assert forall|e: int| 0 <= e < dp implies (#[trigger] t[at(h, e, c)]) is Some by {
                                assert(s1[at(h, e, c)] is Some);
                            }
                        }
                        assert(s[at(start, le, c)] is None);
                        lemma_turn(s, t, cap, start, r, le, p, true);
                        assert forall|e: int| r + 1 <= e < le implies t[at(start, e, c)] == od[at(
                            start,
                            e,
                            c,
                        )] by {
                            let j = at(start, e, c);
                            assert(j != index);
                            assert(s[j] == od[j]);
                            if j == p {
                                assert(s1[j] is None);
                                assert(od[j] is Some);
                            }
                        }
                        assert forall|j: int| 0 <= j < cap && (#[trigger] od[j]) is None implies t[j] is None by {
                            assert(s[j] is None);
                        }
                        r = r + 1;
                        assert(at(start, r, c) == at(index as int, 1, c));
                    }
                    index = next_slot(index, self.capacity);
                },
            }
        }
    }

    /// Stores the entry in the first empty slot that the search for `key`
    /// meets, or in the slot that holds `key`, and says which slot it was.
    fn store(&mut self, key: u64, value: V) -> (spot: Ghost<int>)
        requires
            old(self).capacity >= 1,
            old(self).data@.len() == old(self).capacity,
            old(self).size == count(old(self).data@),
            old(self).size < old(self).capacity,
            forall|j: int|
                0 <= j < old(self).data@.len() && (#[trigger] old(self).data@[j]) is Some ==> old(
                    self,
                ).data@[j].unwrap().0 != key,
        ensures
            0 <= spot@ < old(self).capacity,
            old(self).data@[spot@] is None,
            final(self).data@ == old(self).data@.update(spot@, Some((key, value))),
            forall|e: int|
                0 <= e < dist(home(key, old(self).capacity), spot@, old(self).capacity as int) ==> (
                #[trigger] old(self).data@[at(
                    home(key, old(self).capacity),
                    e,
                    old(self).capacity as int,
                )]) is Some,
            final(self).size == old(self).size + 1,
            final(self).capacity == old(self).capacity,
    {
        let ghost s = self.data@;
        let (found, index) = self.find_slot(&key);
        proof {
            if found {
                assert(s[index as int] is Some);
            }
            lemma_count_update(s, index as int, Some((key, value)));
            lemma_count_bound(s.update(index as int, Some((key, value))));
        }
        self.data[index] = Some((key, value));
        self.size += 1;
        Ghost(index as int)
    }

    /// The value that `key` is mapped to, if any.
    pub fn get(&self, key: &u64) -> (r: Option<&V>)
        requires
            self.wf(),
        ensures
            match r {
                Some(v) => self@.contains_key(*key) && *v == self@[*key],
                None => !self@.contains_key(*key),
            },
    {
        let (found, index) = self.find_slot(key);
        if found {
            match &self.data[index] {
                Some(entry) => Some(&entry.1),
                None => None,
            }
        } else {
            proof {
                lemma_absent(self.data@, self.capacity, *key, index as int);
            }
            None
        }
    }

    /// Searches the table for `key` from its home slot on. The result is the slot
    /// that holds the key, with `true`, or the first empty slot that the search
    /// meets, with `false`.
    fn find_slot(&self, key: &u64) -> (r: (bool, usize))
        requires
            self.capacity >= 1,
            self.data@.len() == self.capacity,
            count(self.data@) < self.capacity,
        ensures
            r.1 < self.capacity,
            r.0 ==> self.data@[r.1 as int] is Some && self.data@[r.1 as int].unwrap().0 == *key,
            !r.0 ==> self.data@[r.1 as int] is None,
            forall|e: int|
                0 <= e < dist(home(*key, self.capacity), r.1 as int, self.capacity as int) ==> (
                #[trigger] self.data@[at(home(*key, self.capacity), e, self.capacity as int)]) is Some && self.data@[at(
                    home(*key, self.capacity),
                    e,
                    self.capacity as int,
                )].unwrap().0 != *key,
    {
        proof {
            lemma_home_in_table(*key, self.capacity);
        }
        let ghost cap = self.capacity as int;
        let ghost h = home(*key, self.capacity);
        let ghost empty = lemma_empty_slot(self.data@);
        let mut index = self.hash(key) % self.capacity;
        let ghost d: int = 0;
        loop
            invariant
                self.capacity >= 1,
                cap == self.capacity,
                self.data@.len() == self.capacity,
                h == home(*key, self.capacity),
                0 <= h < cap,
                0 <= empty < cap,
                self.data@[empty] is None,
                0 <= d <= dist(h, empty, cap),
                index == at(h, d, cap),
                index < self.capacity,
                forall|e: int|
                    0 <= e < d ==> (#[trigger] self.data@[at(h, e, cap)]) is Some && self.data@[at(
                        h,
                        e,
                        cap,
                    )].unwrap().0 != *key,
            decreases dist(h, empty, cap) - d,
        {
            match &self.data[index] {
                Some(entry) => {
                    if entry.0 == *key {
                        return (true, index);
                    }
                },
                None => {
                    return (false, index);
                },
            }
            proof {
                assert(index != empty);
                assert(at(h, d + 1, cap) == at(index as int, 1, cap));
                d = d + 1;
            }
            index = next_slot(index, self.capacity);
        }
    }

    /// The hash of `key`, from which its home slot is taken.
    fn hash(&self, key: &u64) -> (h: usize)
        ensures
            h == hash_of(*key) as usize,
    {
        hash_key(key)
    }
}

/// Where the search for a key meets an empty slot, no slot holds the key.
proof fn lemma_absent<V>(s: Seq<Option<(u64, V)>>, cap: usize, key: u64, index: int)
    requires
        sound(s, cap),
        0 <= index < cap,
        s[index] is None,
        forall|e: int|
            0 <= e < dist(home(key, cap), index, cap as int) ==> (#[trigger] s[at(
                home(key, cap),
                e,
                cap as int,
            )]) is Some && s[at(home(key, cap), e, cap as int)].unwrap().0 != key,
    ensures
        forall|j: int| 0 <= j < s.len() && (#[trigger] s[j]) is Some ==> s[j].unwrap().0 != key,
{
    lemma_home_in_table(key, cap);
    let h = home(key, cap);
    let c = cap as int;
    assert forall|j: int| 0 <= j < s.len() && (#[trigger] s[j]) is Some implies s[j].unwrap().0
        != key by {
        if s[j].unwrap().0 == key {
            assert(reachable(s, cap, j));
            let dj = dist(h, j, c);
            let di = dist(h, index, c);
            assert(at(h, dj, c) == j);
            assert(at(h, di, c) == index);
            if dj < di {
                assert(s[at(h, dj, c)].unwrap().0 != key);
            } else {
                assert(s[at(h, di, c)] is Some);
            }
        }
    }
}

} // verus!
