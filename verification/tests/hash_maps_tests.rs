use data_structures::hash_maps::chaining::ChainingHashMap;
use data_structures::hash_maps::hash_key;
use std::collections::hash_map::DefaultHasher;
use std::hash::{Hash, Hasher};
use data_structures::hash_maps::open_addressing::OpenAddressingHashMap;

#[test]
fn hash_key_is_the_default_hash() {
    let mut seen = Vec::new();
    for key in [0u64, 1, 2, 3, 1 << 40, u64::MAX] {
        let mut hasher = DefaultHasher::new();
        key.hash(&mut hasher);
        let expected = hasher.finish() as usize;
        assert_eq!(hash_key(&key), expected);
        assert_eq!(hash_key(&key), hash_key(&key));
        assert!(!seen.contains(&expected));
        seen.push(expected);
    }
    let untouched = DefaultHasher::new().finish() as usize;
    assert_ne!(hash_key(&7), untouched);
}

#[test]
fn test_chaining_hash_map() {
    let mut map = ChainingHashMap::new(16);
    map.insert(1, "one");
    map.insert(2, "two");
    map.insert(3, "three");
    assert_eq!(map.get(&1), Some(&"one"));
    assert_eq!(map.get(&2), Some(&"two"));
    assert_eq!(map.get(&3), Some(&"three"));
    assert_eq!(map.remove(&2), Some("two"));
    assert_eq!(map.get(&2), None);
}

#[test]
fn chaining_hash_map_overwrites() {
    let mut map = ChainingHashMap::new(4);
    assert_eq!(map.len(), 0);
    map.insert(10, 1);
    map.insert(10, 2);
    assert_eq!(map.len(), 1);
    assert_eq!(map.get(&10), Some(&2));
    assert_eq!(map.remove(&10), Some(2));
    assert_eq!(map.remove(&10), None);
    assert_eq!(map.len(), 0);
}

#[test]
fn chaining_hash_map_with_one_slot() {
    let mut map = ChainingHashMap::new(1);
    for k in 0..100u64 {
        map.insert(k, k * k);
    }
    assert_eq!(map.len(), 100);
    for k in 0..100u64 {
        assert_eq!(map.get(&k), Some(&(k * k)));
    }
    for k in (0..100u64).step_by(2) {
        assert_eq!(map.remove(&k), Some(k * k));
    }
    for k in 0..100u64 {
        if k % 2 == 0 {
            assert_eq!(map.get(&k), None);
        } else {
            assert_eq!(map.get(&k), Some(&(k * k)));
        }
    }
    assert_eq!(map.len(), 50);
}

#[test]
fn chaining_hash_map_spreads_keys() {
    let mut map = ChainingHashMap::new(8);
    for k in 0..1000u64 {
        map.insert(k.wrapping_mul(2654435761), k);
    }
    for k in 0..1000u64 {
        assert_eq!(map.get(&k.wrapping_mul(2654435761)), Some(&k));
    }
    assert_eq!(map.get(&1), None);
}

#[test]
fn test_open_addressing_hash_map() {
    let mut map = OpenAddressingHashMap::new(16);
    map.insert(1, "one");
    map.insert(2, "two");
    map.insert(3, "three");
    assert_eq!(map.get(&1), Some(&"one"));
    assert_eq!(map.get(&2), Some(&"two"));
    assert_eq!(map.get(&3), Some(&"three"));
    assert_eq!(map.remove(&2), Some("two"));
    assert_eq!(map.get(&2), None);
}

#[test]
fn open_addressing_hash_map_grows() {
    let mut map = OpenAddressingHashMap::new(1);
    assert_eq!(map.capacity(), 1);
    assert_eq!(map.len(), 0);
    map.insert(5, 50);
    assert_eq!(map.capacity(), 2);
    assert_eq!(map.len(), 1);
    map.insert(6, 60);
    assert_eq!(map.capacity(), 4);
    assert_eq!(map.len(), 2);
    map.insert(5, 51);
    assert_eq!(map.capacity(), 8);
    assert_eq!(map.len(), 2);
    map.insert(7, 70);
    assert_eq!(map.capacity(), 8);
    assert_eq!(map.len(), 3);
    assert_eq!(map.remove(&6), Some(60));
    assert_eq!(map.capacity(), 8);
    assert_eq!(map.len(), 2);
    assert_eq!(map.get(&5), Some(&51));
    assert_eq!(map.get(&6), None);
    assert_eq!(map.get(&7), Some(&70));
}

#[test]
fn open_addressing_hash_map_closes_the_gap() {
    let mut map = OpenAddressingHashMap::new(4);
    let mut kept: Vec<u64> = Vec::new();
    for k in 0..400u64 {
        map.insert(k, k + 1000);
    }
    for k in 0..400u64 {
        if k % 3 == 0 {
            assert_eq!(map.remove(&k), Some(k + 1000));
            assert_eq!(map.remove(&k), None);
        } else {
            kept.push(k);
        }
        for j in kept.iter() {
            assert_eq!(map.get(j), Some(&(*j + 1000)));
        }
    }
    for k in 0..400u64 {
        if k % 3 == 0 {
            assert_eq!(map.get(&k), None);
        } else {
            assert_eq!(map.get(&k), Some(&(k + 1000)));
        }
    }
}

#[test]
fn open_addressing_hash_map_matches_a_list() {
    let mut map = OpenAddressingHashMap::new(2);
    let mut model: Vec<(u64, u64)> = Vec::new();
    let mut state: u64 = 77;
    for step in 0..5000u64 {
        state = state.wrapping_mul(6364136223846793005).wrapping_add(1442695040888963407);
        let key = (state >> 35) % 64;
        match (state >> 20) % 3 {
            0 => {
                map.insert(key, step);
                model.retain(|e| e.0 != key);
                model.push((key, step));
            }
            1 => {
                let expected = model.iter().find(|e| e.0 == key).map(|e| e.1);
                assert_eq!(map.remove(&key), expected);
                model.retain(|e| e.0 != key);
            }
            _ => {
                let expected = model.iter().find(|e| e.0 == key).map(|e| e.1);
                assert_eq!(map.get(&key).copied(), expected);
            }
        }
    }
}

#[test]
fn hash_maps_clone_and_print() {
    let mut open = OpenAddressingHashMap::new(4);
    let mut chained = ChainingHashMap::new(4);
    open.insert(1, 10);
    chained.insert(1, 10);
    let open2 = open.clone();
    let chained2 = chained.clone();
    open.insert(2, 20);
    chained.insert(2, 20);
    assert_eq!(open2.get(&1), Some(&10));
    assert_eq!(open2.get(&2), None);
    assert_eq!(chained2.get(&1), Some(&10));
    assert_eq!(chained2.get(&2), None);
    assert!(format!("{:?}", open2).contains("10"));
    assert!(format!("{:?}", chained2).contains("10"));
}
