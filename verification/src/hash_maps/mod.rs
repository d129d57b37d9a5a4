//! Hash maps from numbers to values.
use vstd::prelude::*;
use std::collections::hash_map::DefaultHasher;
use std::hash::Hash;
use std::hash::Hasher;
use vstd::std_specs::hash::DefaultHasherAdditionalSpecFns;

pub mod chaining;
pub mod open_addressing;

verus! {

/// What a hasher has been fed once `key` has been hashed into one that had
/// been fed `state`.
pub uninterp spec fn fed_with(state: Seq<Seq<u8>>, key: u64) -> Seq<Seq<u8>>;

/// Feeds `key` to `hasher`. The body calls `u64`'s `Hash::hash`, which writes
/// the key to the hasher; what the hasher has then been fed depends on what it
/// had been fed before and on the key alone.
#[verifier::external_body]
fn feed(key: &u64, hasher: &mut DefaultHasher)
    ensures
        final(hasher)@ == fed_with(old(hasher)@, *key),
{
    key.hash(hasher);
}

/// The hash of `key`: what a fresh default hasher makes of it.
pub open spec fn hash_of(key: u64) -> u64 {
    DefaultHasher::spec_finish(fed_with(Seq::empty(), key))
}

/// The slot of a table of `capacity` slots in which the search for `key`
/// begins.
pub open spec fn home(key: u64, capacity: usize) -> int {
    (hash_of(key) as usize) as int % capacity as int
}

/// The home slot of a key is a slot of the table.
pub proof fn lemma_home_in_table(key: u64, capacity: usize)
    requires
        capacity > 0,
    ensures
        0 <= home(key, capacity) < capacity,
{
    vstd::arithmetic::div_mod::lemma_mod_pos_bound(
        (hash_of(key) as usize) as int,
        capacity as int,
    );
}

/// The hash of `key`, cut to the width of a `usize`; both maps take the home
/// slot of a key from it.
pub fn hash_key(key: &u64) -> (h: usize)
    ensures
        h == hash_of(*key) as usize,
{
    let mut hasher = DefaultHasher::new();
    feed(key, &mut hasher);
    let digest = hasher.finish();
    #[verifier::truncate]
    (digest as usize)
}

} // verus!
