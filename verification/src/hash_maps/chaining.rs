//! A hash map with separate chaining: each slot of the table holds the list of
//! the entries whose keys hash to it.
use vstd::prelude::*;
use crate::hash_maps::{home, hash_of, hash_key, lemma_home_in_table};

verus! {

/// A map from `u64` keys to values of type `V`.
#[derive(Debug, Clone)]
pub struct ChainingHashMap<V> {
    data: Vec<Vec<(u64, V)>>,
    capacity: usize,
    size: usize,
}

/// The position of the first entry of `chain` with the key `key`, if any.
spec fn position<V>(chain: Seq<(u64, V)>, key: u64) -> Option<int>
    decreases chain.len(),
{
    if chain.len() == 0 {
        None
    } else if chain[0].0 == key {
        Some(0)
    } else {
        match position(chain.drop_first(), key) {
            Some(i) => Some(i + 1),
            None => None,
        }
    }
}

/// No two entries of `chain` have the same key.
spec fn distinct_keys<V>(chain: Seq<(u64, V)>) -> bool {
    forall|i: int, j: int| 0 <= i < j < chain.len() ==> chain[i].0 != chain[j].0
}

/// `position` finds the first entry with the key, and none where there is
/// none.
proof fn lemma_position<V>(chain: Seq<(u64, V)>, key: u64)
    ensures
        match position(chain, key) {
            Some(i) => 0 <= i < chain.len() && chain[i].0 == key && forall|j: int|
                0 <= j < i ==> chain[j].0 != key,
            None => forall|j: int| 0 <= j < chain.len() ==> chain[j].0 != key,
        },
    decreases chain.len(),
{
    if chain.len() > 0 && chain[0].0 != key {
        let rest = chain.drop_first();
        lemma_position(rest, key);
        match position(rest, key) {
            Some(i) => {
                assert forall|j: int| 0 <= j < i + 1 implies chain[j].0 != key by {
                    if j > 0 {
                        assert(rest[j - 1] == chain[j]);
                    }
                }
            },
            None => {
                assert forall|j: int| 0 <= j < chain.len() implies chain[j].0 != key by {
                    if j > 0 {
                        assert(rest[j - 1] == chain[j]);
                    }
                }
            },
        }
    }
}

/// The value that `chain` holds for `key`, if any.
spec fn held<V>(chain: Seq<(u64, V)>, key: u64) -> Option<V> {
    match position(chain, key) {
        Some(i) => Some(chain[i].1),
        None => None,
    }
}

/// A chain with distinct keys holds for a key the value of the one entry with
/// that key.
proof fn lemma_held<V>(chain: Seq<(u64, V)>, key: u64, i: int)
    requires
        distinct_keys(chain),
        0 <= i < chain.len(),
        chain[i].0 == key,
    ensures
        held(chain, key) == Some(chain[i].1),
{
    lemma_position(chain, key);
}

/// A chain without an entry for a key holds nothing for it.
proof fn lemma_not_held<V>(chain: Seq<(u64, V)>, key: u64)
    requires
        forall|j: int| 0 <= j < chain.len() ==> chain[j].0 != key,
    ensures
        held(chain, key) is None,
{
    lemma_position(chain, key);
}

/// The position of the entry of `chain` with the key `key`, if any.
fn find_entry<V>(chain: &Vec<(u64, V)>, key: &u64) -> (r: Option<usize>)
    ensures
        match r {
            Some(i) => i < chain@.len() && chain@[i as int].0 == *key && position(chain@, *key)
                == Some(i as int),
            None => position(chain@, *key) is None && forall|j: int|
                0 <= j < chain@.len() ==> chain@[j].0 != *key,
        },
{
    let n = chain.len();
    let mut i: usize = 0;
    while i < n
        invariant
            i <= n,
            n == chain@.len(),
            forall|j: int| 0 <= j < i ==> chain@[j].0 != *key,
        decreases n - i,
    {
        if chain[i].0 == *key {
            proof {
                lemma_position(chain@, *key);
            }
            return Some(i);
        }
        i += 1;
    }
    proof {
        lemma_position(chain@, *key);
    }
    None
}

/// The table `data` holds in its chains what `model` maps.
spec fn agrees<V>(data: Seq<Vec<(u64, V)>>, capacity: usize, model: Map<u64, V>) -> bool {
    forall|k: u64|
        #![trigger model.contains_key(k)]
        #![trigger home(k, capacity)]
        held(data[home(k, capacity)]@, k) == (if model.contains_key(k) {
            Some(model[k])
        } else {
            None
        })
}

/// A change to one chain that changes what it holds for one key alone keeps
/// the table in agreement with the map changed alike.
proof fn lemma_agrees_after<V>(
    data0: Seq<Vec<(u64, V)>>,
    data1: Seq<Vec<(u64, V)>>,
    capacity: usize,
    model0: Map<u64, V>,
    model1: Map<u64, V>,
    index: int,
    key: u64,
)
    requires
        capacity > 0,
        data0.len() == capacity,
        data1.len() == capacity,
        agrees(data0, capacity, model0),
        index == home(key, capacity),
        forall|b: int| 0 <= b < capacity && b != index ==> #[trigger] data1[b] == data0[b],
        forall|k: u64| k != key ==> held(data1[index]@, k) == held(data0[index]@, k),
        held(data1[index]@, key) == (if model1.contains_key(key) {
            Some(model1[key])
        } else {
            None
        }),
        forall|k: u64| k != key ==> model1.contains_key(k) == model0.contains_key(k),
        forall|k: u64| k != key && model0.contains_key(k) ==> model1[k] == model0[k],
    ensures
        agrees(data1, capacity, model1),
{
    assert forall|k: u64|
        #![trigger model1.contains_key(k)]
        #![trigger home(k, capacity)]
        held(data1[home(k, capacity)]@, k) == (if model1.contains_key(k) {
            Some(model1[k])
        } else {
            None
        }) by {
        lemma_home_in_table(k, capacity);
        let b = home(k, capacity);
        assert(held(data0[b]@, k) == (if model0.contains_key(k) {
            Some(model0[k])
        } else {
            None
        }));
        if k != key {
            if b != index {
                assert(data1[b] == data0[b]);
            }
        }
    }
}

/// The map that the table stands for: each key is mapped to what the chain
/// at its home slot holds for it.
spec fn content<V>(data: Seq<Vec<(u64, V)>>, capacity: usize) -> Map<u64, V> {
    Map::new(
        |k: u64| held(data[home(k, capacity)]@, k) is Some,
        |k: u64| held(data[home(k, capacity)]@, k).unwrap(),
    )
}

/// A map that the table agrees with is the map that the table stands for.
proof fn lemma_agrees_unique<V>(data: Seq<Vec<(u64, V)>>, capacity: usize, model: Map<u64, V>)
    requires
        agrees(data, capacity, model),
    ensures
        content(data, capacity) == model,
{
    let c = content(data, capacity);
    assert forall|k: u64| c.contains_key(k) == model.contains_key(k) by {
        assert(held(data[home(k, capacity)]@, k) == (if model.contains_key(k) {
            Some(model[k])
        } else {
            None
        }));
    }
    assert forall|k: u64| c.contains_key(k) implies c[k] == model[k] by {
        assert(held(data[home(k, capacity)]@, k) == (if model.contains_key(k) {
            Some(model[k])
        } else {
            None
        }));
    }
    assert(c =~= model);
}

impl<V> View for ChainingHashMap<V> {
    type V = Map<u64, V>;

    /// The map from keys to values.
    closed spec fn view(&self) -> Map<u64, V> {
        content(self.data@, self.capacity)
    }
}

impl<V> ChainingHashMap<V> {
    /// The representation invariant: the table has `capacity` slots, at least
    /// one; no chain holds a key twice; the chain at the home slot of each key
    /// holds for it what the map holds; and `size` counts the keys.
    pub closed spec fn wf(&self) -> bool {
        &&& self.capacity > 0
        &&& self.data@.len() == self.capacity
        &&& self@.dom().finite()
        &&& self.size == self@.len()
        &&& forall|b: int| 0 <= b < self.data@.len() ==> distinct_keys(#[trigger] self.data@[b]@)
        &&& agrees(self.data@, self.capacity, self@)
    }

    /// An empty map with a table of `capacity` slots.
    pub fn new(capacity: usize) -> (map: Self)
        requires
            capacity > 0,
        ensures
            map.wf(),
            map@ == Map::<u64, V>::empty(),
    {
        let mut data: Vec<Vec<(u64, V)>> = Vec::new();
        let mut i: usize = 0;
        while i < capacity
            invariant
                i <= capacity,
                data@.len() == i,
                forall|b: int| 0 <= b < i ==> (#[trigger] data@[b])@.len() == 0,
            decreases capacity - i,
        {
            data.push(Vec::new());
            i += 1;
        }
        let map = ChainingHashMap { data, capacity, size: 0 };
        proof {
            assert forall|k: u64|
                #![trigger home(k, map.capacity)]
                held(map.data@[home(k, map.capacity)]@, k) is None by {
                lemma_home_in_table(k, capacity);
                lemma_not_held(map.data@[home(k, map.capacity)]@, k);
            }
            assert(agrees(map.data@, map.capacity, Map::<u64, V>::empty()));
            lemma_agrees_unique(map.data@, map.capacity, Map::<u64, V>::empty());
        }
        map
    }

    /// The number of keys in the map.
    pub fn len(&self) -> (n: usize)
        requires
            self.wf(),
        ensures
            n == self@.len(),
    {
        self.size
    }

    /// Maps `key` to `value`, in place of what it was mapped to before.
    pub fn insert(&mut self, key: u64, value: V)
        requires
            old(self).wf(),
            old(self)@.len() < usize::MAX,
        ensures
            final(self).wf(),
            final(self)@ == old(self)@.insert(key, value),
    {
        proof {
            lemma_home_in_table(key, self.capacity);
        }
        let index = self.hash(&key) % self.capacity;
        let ghost chain0 = self.data@[index as int]@;
        let ghost data0 = self.data@;
        let ghost model0 = self@;
        proof {
            assert(distinct_keys(chain0));
            assert(held(chain0, key) == (if model0.contains_key(key) {
                Some(model0[key])
            } else {
                None
            }));
        }
        match find_entry(&self.data[index], &key) {
            Some(i) => {
                self.data[index][i].1 = value;
                let ghost model1 = model0.insert(key, value);
                proof {
                    let chain1 = self.data@[index as int]@;
                    assert(chain1 == chain0.update(i as int, (key, value)));
                    assert(distinct_keys(chain1));
                    lemma_held(chain1, key, i as int);
                    assert forall|k: u64| k != key implies held(chain1, k) == held(chain0, k) by {
                        lemma_position(chain0, k);
                        match position(chain0, k) {
                            Some(p) => {
                                lemma_held(chain1, k, p);
                            },
                            None => {
                                lemma_not_held(chain1, k);
                            },
                        }
                    }
                    lemma_agrees_after(
                        data0,
                        self.data@,
                        self.capacity,
                        model0,
                        model1,
                        index as int,
                        key,
                    );
                    lemma_agrees_unique(self.data@, self.capacity, model1);
                    assert(model0.contains_key(key));
                    assert(model1.dom() =~= model0.dom());
                }
            },
            None => {
                self.data[index].push((key, value));
                self.size += 1;
                let ghost model1 = model0.insert(key, value);
                proof {
                    let chain1 = self.data@[index as int]@;
                    let n = chain0.len() as int;
                    assert(chain1 == chain0.push((key, value)));
                    assert(distinct_keys(chain1));
                    lemma_held(chain1, key, n);
                    assert forall|k: u64| k != key implies held(chain1, k) == held(chain0, k) by {
                        lemma_position(chain0, k);
                        match position(chain0, k) {
                            Some(p) => {
                                assert(chain1[p] == chain0[p]);
                                lemma_held(chain1, k, p);
                            },
                            None => {
                                assert forall|j: int| 0 <= j < chain1.len() implies chain1[j].0
                                    != k by {
                                    if j < n {
                                        assert(chain1[j] == chain0[j]);
                                    }
                                }
                                lemma_not_held(chain1, k);
                            },
                        }
                    }
                    lemma_agrees_after(
                        data0,
                        self.data@,
                        self.capacity,
                        model0,
                        model1,
                        index as int,
                        key,
                    );
                    lemma_agrees_unique(self.data@, self.capacity, model1);
                    assert(!model0.contains_key(key));
                }
            },
        }
    }

    /// The value that `key` is mapped to, if any.
    pub fn get(&self, key: &u64) -> (r: Option<&V>)
        requires
            self.wf(),
        ensures
            match r {
                Some(v) => self@.contains_key(*key) && *v == self@[*key],
                None => !self@.contains_key(*key),
            },
    {
        proof {
            lemma_home_in_table(*key, self.capacity);
        }
        let index = self.hash(key) % self.capacity;
        proof {
            let chain = self.data@[index as int]@;
            assert(held(chain, *key) == (if self@.contains_key(*key) {
                Some(self@[*key])
            } else {
                None
            }));
        }
        match find_entry(&self.data[index], key) {
            Some(i) => Some(&self.data[index][i].1),
            None => None,
        }
    }

    /// Takes `key` out of the map and returns the value it was mapped to, if
    /// any.
    pub fn remove(&mut self, key: &u64) -> (r: Option<V>)
        requires
            old(self).wf(),
        ensures
            final(self).wf(),
            final(self)@ == old(self)@.remove(*key),
            match r {
                Some(v) => old(self)@.contains_key(*key) && v == old(self)@[*key],
                None => !old(self)@.contains_key(*key),
            },
    {
        proof {
            lemma_home_in_table(*key, self.capacity);
        }
        let index = self.hash(key) % self.capacity;
        let ghost chain0 = self.data@[index as int]@;
        let ghost data0 = self.data@;
        let ghost model0 = self@;
        proof {
            assert(distinct_keys(chain0));
            assert(held(chain0, *key) == (if model0.contains_key(*key) {
                Some(model0[*key])
            } else {
                None
            }));
        }
        let pos = find_entry(&self.data[index], key);
        match pos {
            Some(i) => {
                proof {
                    assert(model0.dom().contains(*key));
                    assert(model0.len() > 0);
                }
                self.size -= 1;
                let entry = self.data[index].remove(i);
                let ghost model1 = model0.remove(*key);
                proof {
                    let chain1 = self.data@[index as int]@;
                    assert(chain1 == chain0.remove(i as int));
                    assert forall|a: int, b: int| 0 <= a < b < chain1.len() implies chain1[a].0
                        != chain1[b].0 by {
                        let a0 = if a < i { a } else { a + 1 };
                        let b0 = if b < i { b } else { b + 1 };
                        assert(chain1[a] == chain0[a0]);
                        assert(chain1[b] == chain0[b0]);
                    }
                    assert forall|j: int| 0 <= j < chain1.len() implies chain1[j].0 != *key by {
                        let j0 = if j < i { j } else { j + 1 };
                        assert(chain1[j] == chain0[j0]);
                    }
                    lemma_not_held(chain1, *key);
                    assert forall|k: u64| k != *key implies held(chain1, k) == held(chain0, k) by {
                        lemma_position(chain0, k);
                        match position(chain0, k) {
                            Some(p) => {
                                let shifted = if p < i { p } else { p - 1 };
                                assert(chain1[shifted] == chain0[p]);
                                lemma_held(chain1, k, shifted);
                            },
                            None => {
                                assert forall|j: int| 0 <= j < chain1.len() implies chain1[j].0
                                    != k by {
                                    let j0 = if j < i { j } else { j + 1 };
                                    assert(chain1[j] == chain0[j0]);
                                }
                                lemma_not_held(chain1, k);
                            },
                        }
                    }
                    lemma_agrees_after(
                        data0,
                        self.data@,
                        self.capacity,
                        model0,
                        model1,
                        index as int,
                        *key,
                    );
                    lemma_agrees_unique(self.data@, self.capacity, model1);
                    assert forall|b: int| 0 <= b < self.data@.len() implies distinct_keys(
                        #[trigger] self.data@[b]@,
                    ) by {
                        if b != index {
                            assert(self.data@[b] == data0[b]);
                        }
                    }
                }
                Some(entry.1)
            },
            None => {
                proof {
                    assert(model0.remove(*key) =~= model0);
                }
                None
            },
        }
    }

    /// The hash of `key`, from which its slot in the table is taken.
    fn hash(&self, key: &u64) -> (h: usize)
        ensures
            h == hash_of(*key) as usize,
    {
        hash_key(key)
    }
}

} // verus!
