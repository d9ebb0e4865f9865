use rand::SeedableRng;
use rand_xoshiro::Xoshiro256Plus;
use tectonic::keyset::btree_set_key_set::BTreeSetKeySet;
use tectonic::keyset::vec_bloom_filter_key_set::VecBloomFilterKeySet;
use tectonic::keyset::vec_hash_map_index_key_set::VecHashMapIndexKeySet;
use tectonic::keyset::vec_hash_set_key_set::VecHashSetKeySet;
use tectonic::keyset::vec_key_set::VecKeySet;
use tectonic::keyset::vec_option_key_set::VecOptionKeySet;
use tectonic::keyset::{copy_key, Key, KeySet};

fn k(s: &str) -> Key {
    s.as_bytes().to_vec()
}

fn contents<K: KeySet>(set: &K) -> Vec<Option<Key>> {
    (0..set.len()).map(|i| set.get(i).cloned()).collect()
}

fn held<K: KeySet>(set: &K) -> Vec<Key> {
    let mut v: Vec<Key> = contents(set).into_iter().flatten().collect();
    v.sort();
    v
}

#[test]
fn vec_key_set_push_get_contains() {
    let mut s = VecKeySet::new(4);
    assert!(s.is_empty());
    s.push(k("b"));
    s.push(k("a"));
    assert_eq!(s.len(), 2);
    assert_eq!(s.get(0), Some(&k("b")));
    assert_eq!(s.get(1), Some(&k("a")));
    assert!(s.contains(&k("a")));
    assert!(!s.contains(&k("c")));
}

#[test]
fn vec_key_set_remove_takes_the_last_key() {
    let mut s = VecKeySet::new(0);
    s.push(k("a"));
    s.push(k("b"));
    s.push(k("c"));
    assert_eq!(s.remove(0), Some(k("c")));
    assert_eq!(contents(&s), vec![Some(k("b")), Some(k("a"))]);
}

#[test]
fn vec_key_set_sort_orders_pushed_keys() {
    let mut s = VecKeySet::new(0);
    for key in ["d", "b", "c", "a"] {
        s.push(k(key));
    }
    s.sort();
    assert_eq!(contents(&s), vec![Some(k("a")), Some(k("b")), Some(k("c")), Some(k("d"))]);
}

#[test]
fn vec_key_set_sort_trusts_the_flag_after_remove() {
    let mut s = VecKeySet::new(0);
    s.push(k("a"));
    s.push(k("b"));
    s.push(k("c"));
    s.remove(0);
    s.sort();
    assert_eq!(contents(&s), vec![Some(k("b")), Some(k("a"))]);
}

#[test]
fn vec_key_set_remove_range_keeps_the_rest_in_order() {
    let mut s = VecKeySet::new(0);
    for key in ["a", "b", "c", "d", "e"] {
        s.push(k(key));
    }
    s.remove_range(1..3);
    assert_eq!(contents(&s), vec![Some(k("a")), Some(k("d")), Some(k("e"))]);
}

#[test]
fn vec_key_set_random_removals_take_each_key_once() {
    let mut rng = Xoshiro256Plus::seed_from_u64(1);
    let mut s = VecKeySet::new(0);
    for key in ["a", "b", "c", "d"] {
        s.push(k(key));
    }
    let mut taken = Vec::new();
    while !s.is_empty() {
        taken.push(s.remove_random(&mut rng));
    }
    taken.sort();
    assert_eq!(taken, vec![k("a"), k("b"), k("c"), k("d")]);
}

#[test]
fn vec_key_set_remove_range_random_takes_that_many() {
    let mut rng = Xoshiro256Plus::seed_from_u64(2);
    let mut s = VecKeySet::new(0);
    for key in ["a", "b", "c", "d", "e", "f"] {
        s.push(k(key));
    }
    s.remove_range_random(2, &mut rng);
    assert_eq!(s.len(), 4);
    let rest = held(&s);
    let positions: Vec<usize> = ["a", "b", "c", "d", "e", "f"]
        .iter()
        .enumerate()
        .filter(|(_, key)| !rest.contains(&k(key)))
        .map(|(i, _)| i)
        .collect();
    assert_eq!(positions.len(), 2);
    assert_eq!(positions[1], positions[0] + 1);
    assert!(positions[1] < 5);
}

#[test]
fn vec_key_set_get_random_gives_a_held_key() {
    let mut rng = Xoshiro256Plus::seed_from_u64(3);
    let mut s = VecKeySet::new(0);
    s.push(k("x"));
    s.push(k("y"));
    for _ in 0..20 {
        let key = s.get_random(&mut rng).clone();
        assert!(key == k("x") || key == k("y"));
    }
}

#[test]
fn vec_option_key_set_leaves_an_empty_slot_below_the_threshold() {
    let mut s = VecOptionKeySet::new(0);
    for i in 0..11u8 {
        s.push(vec![b'a' + i]);
    }
    assert_eq!(s.remove(0), Some(k("a")));
    assert_eq!(s.len(), 11);
    assert_eq!(s.get(0), None);
    assert_eq!(s.remove(0), None);
    assert!(!s.contains(&k("a")));
    assert!(s.contains(&k("b")));
}

#[test]
fn vec_option_key_set_compacts_at_the_threshold() {
    let mut s = VecOptionKeySet::new(0);
    for key in ["a", "b", "c"] {
        s.push(k(key));
    }
    assert_eq!(s.remove(1), Some(k("b")));
    assert_eq!(contents(&s), vec![Some(k("a")), Some(k("c"))]);
}

#[test]
fn vec_option_key_set_maybe_flatten_keeps_a_full_vector() {
    let mut s = VecOptionKeySet::new(0);
    s.push(k("b"));
    s.push(k("a"));
    s.maybe_flatten_in_place();
    assert_eq!(contents(&s), vec![Some(k("b")), Some(k("a"))]);
}

#[test]
fn vec_option_key_set_remove_range_empties_slots() {
    let mut s = VecOptionKeySet::new(0);
    for i in 0..20u8 {
        s.push(vec![b'a' + i]);
    }
    s.remove_range(3..4);
    assert_eq!(s.len(), 20);
    assert_eq!(s.get(3), None);
    s.remove_range(4..6);
    assert_eq!(s.len(), 17);
    assert!(contents(&s).iter().all(|slot| slot.is_some()));
}

#[test]
fn vec_option_key_set_sort_orders_the_keys() {
    let mut s = VecOptionKeySet::new(0);
    for key in ["c", "a", "b"] {
        s.push(k(key));
    }
    s.sort();
    assert_eq!(contents(&s), vec![Some(k("a")), Some(k("b")), Some(k("c"))]);
}

#[test]
fn vec_option_key_set_random_picks_find_held_keys() {
    let mut rng = Xoshiro256Plus::seed_from_u64(4);
    let mut s = VecOptionKeySet::new(0);
    for i in 0..12u8 {
        s.push(vec![b'a' + i]);
    }
    s.remove(5);
    for _ in 0..30 {
        let key = s.get_random(&mut rng).clone();
        assert_ne!(key, vec![b'a' + 5]);
    }
    let mut taken = Vec::new();
    while !held(&s).is_empty() {
        taken.push(s.remove_random(&mut rng));
    }
    assert_eq!(taken.len(), 11);
}

#[test]
fn vec_hash_set_key_set_answers_contains_from_the_set() {
    let mut s = VecHashSetKeySet::new(0);
    s.push(k("a"));
    s.push(k("b"));
    assert!(s.contains(&k("a")));
    assert_eq!(s.remove(0), Some(k("a")));
    assert!(!s.contains(&k("a")));
    assert_eq!(contents(&s), vec![Some(k("b"))]);
}

#[test]
fn vec_hash_set_key_set_forgets_a_duplicate_removed_once() {
    let mut s = VecHashSetKeySet::new(0);
    s.push(k("a"));
    s.push(k("a"));
    s.remove(0);
    assert_eq!(s.len(), 1);
    assert!(!s.contains(&k("a")));
}

#[test]
fn vec_hash_set_key_set_remove_range_and_sort() {
    let mut s = VecHashSetKeySet::new(0);
    for key in ["d", "c", "b", "a"] {
        s.push(k(key));
    }
    s.remove_range(0..2);
    assert!(!s.contains(&k("d")));
    assert!(s.contains(&k("b")));
    s.sort();
    assert_eq!(contents(&s), vec![Some(k("a")), Some(k("b"))]);
}

#[test]
fn vec_hash_map_index_key_set_keeps_each_key_once() {
    let mut s = VecHashMapIndexKeySet::new(0);
    s.push(k("a"));
    s.push(k("a"));
    s.push(k("b"));
    assert_eq!(s.len(), 2);
    assert!(s.contains(&k("a")));
}

#[test]
fn vec_hash_map_index_key_set_remove_swaps_in_the_last_key() {
    let mut s = VecHashMapIndexKeySet::new(0);
    for key in ["a", "b", "c"] {
        s.push(k(key));
    }
    assert_eq!(s.remove(0), Some(k("a")));
    assert_eq!(contents(&s), vec![Some(k("c")), Some(k("b"))]);
    assert!(!s.contains(&k("a")));
    assert!(s.contains(&k("c")));
}

#[test]
fn vec_hash_map_index_key_set_remove_range_from_the_back() {
    let mut s = VecHashMapIndexKeySet::new(0);
    for key in ["a", "b", "c", "d", "e"] {
        s.push(k(key));
    }
    s.remove_range(1..3);
    assert_eq!(contents(&s), vec![Some(k("a")), Some(k("d")), Some(k("e"))]);
    assert!(!s.contains(&k("b")));
    assert!(!s.contains(&k("c")));
    s.sort();
    assert_eq!(contents(&s), vec![Some(k("a")), Some(k("d")), Some(k("e"))]);
    assert!(s.contains(&k("e")));
}

#[test]
fn btree_set_key_set_keeps_keys_ordered_and_once() {
    let mut s = BTreeSetKeySet::new(0);
    for key in ["c", "a", "b", "a"] {
        s.push(k(key));
    }
    assert_eq!(contents(&s), vec![Some(k("a")), Some(k("b")), Some(k("c"))]);
    assert_eq!(s.get(5), None);
}

#[test]
fn btree_set_key_set_remove_takes_the_nth_key() {
    let mut s = BTreeSetKeySet::new(0);
    for key in ["c", "a", "b"] {
        s.push(k(key));
    }
    assert_eq!(s.remove(1), Some(k("b")));
    assert_eq!(contents(&s), vec![Some(k("a")), Some(k("c"))]);
}

#[test]
fn btree_set_key_set_remove_range_stops_at_the_end() {
    let mut s = BTreeSetKeySet::new(0);
    for key in ["a", "b", "c", "d"] {
        s.push(k(key));
    }
    s.remove_range(1..3);
    assert_eq!(contents(&s), vec![Some(k("a")), Some(k("d"))]);
    s.remove_range(1..9);
    assert_eq!(contents(&s), vec![Some(k("a"))]);
}

#[test]
fn btree_set_key_set_get_random_gives_the_first_key() {
    let mut rng = Xoshiro256Plus::seed_from_u64(5);
    let mut s = BTreeSetKeySet::new(0);
    for key in ["m", "c", "x"] {
        s.push(k(key));
    }
    let before = rng.clone();
    assert_eq!(s.get_random(&mut rng), &k("c"));
    assert_eq!(rng, before);
}

#[test]
fn bloom_key_set_has_no_false_negatives() {
    let mut s = VecBloomFilterKeySet::with_filter_size(0, 1024, 4);
    for key in ["alpha", "beta", "gamma"] {
        s.push(k(key));
    }
    for key in ["alpha", "beta", "gamma"] {
        assert!(s.contains(&k(key)));
    }
    assert_eq!(s.remove(0), Some(k("alpha")));
    assert!(s.contains(&k("alpha")));
    assert_eq!(contents(&s), vec![Some(k("beta")), Some(k("gamma"))]);
}

#[test]
fn bloom_key_set_sort_and_remove_range() {
    let mut s = VecBloomFilterKeySet::with_filter_size(0, 64, 2);
    for key in ["d", "a", "c", "b"] {
        s.push(k(key));
    }
    s.sort();
    s.remove_range(1..3);
    assert_eq!(contents(&s), vec![Some(k("a")), Some(k("d"))]);
}

#[test]
fn copy_key_copies_the_bytes() {
    let a = k("abc");
    assert_eq!(copy_key(&a), a);
}

#[test]
fn vec_key_set_random_range_removal_keeps_the_rest_in_order() {
    let keys = ["a", "b", "c", "d", "e", "f"];
    for seed in 0..20 {
        let mut rng = Xoshiro256Plus::seed_from_u64(seed);
        let mut s = VecKeySet::new(0);
        for key in keys {
            s.push(k(key));
        }
        s.remove_range_random(3, &mut rng);
        let rest: Vec<Key> = contents(&s).into_iter().flatten().collect();
        let found = (0..3).any(|start| {
            let mut expected: Vec<Key> = keys[..start].iter().map(|x| k(x)).collect();
            expected.extend(keys[start + 3..].iter().map(|x| k(x)));
            expected == rest
        });
        assert!(found);
    }
}

#[test]
fn btree_set_key_set_ranks_are_ascending_after_pushes() {
    let mut s = BTreeSetKeySet::new(0);
    for key in ["d", "b", "a", "c"] {
        s.push(k(key));
    }
    assert_eq!(s.get(1), Some(&k("b")));
    s.remove_range(1..3);
    assert_eq!(contents(&s), vec![Some(k("a")), Some(k("d"))]);
}

#[test]
fn vec_option_key_set_random_picks_after_an_empty_slot() {
    let mut s = VecOptionKeySet::new(0);
    for i in 0..12u8 {
        s.push(vec![b'a' + i]);
    }
    s.remove(0);
    for seed in 0..40 {
        let mut rng = Xoshiro256Plus::seed_from_u64(seed);
        let key = s.get_random(&mut rng).clone();
        assert_ne!(key, k("a"));
    }
}
