//! Hash tables of keys: std's `HashMap` keyed by a 64-bit FNV-1a hash of
//! each key, whose buckets are the key tables of `key_table`. A lookup
//! searches only the keys that share the key's hash.

use crate::keyset::key_table::{KeyIndex, KeyList};
use std::collections::HashMap;
use vstd::prelude::*;

verus! {

broadcast use {vstd::std_specs::hash::group_hash_axioms, vstd::map::group_map_axioms};

/// The FNV-1a offset basis.
pub const FNV_OFFSET: u64 = 0xcbf29ce484222325;

/// The FNV-1a prime.
pub const FNV_PRIME: u64 = 0x100000001b3;

/// The 64-bit FNV-1a hash of a key: starting from the offset basis, each
/// byte is xored in and the result multiplied by the prime, wrapping.
pub open spec fn key_hash(k: Seq<u8>) -> u64
    decreases k.len(),
{
    if k.len() == 0 {
        FNV_OFFSET
    } else {
        (key_hash(k.drop_last()) ^ (k.last() as u64)).wrapping_mul(FNV_PRIME)
    }
}

/// Hashes a key.
pub fn hash_key(key: &[u8]) -> (h: u64)
    ensures
        h == key_hash(key@),
{
    let mut h: u64 = FNV_OFFSET;
    let mut i: usize = 0;
    assert(key@.subrange(0, 0) =~= Seq::<u8>::empty());
    while i < key.len()
        invariant
            i <= key@.len(),
            h == key_hash(key@.subrange(0, i as int)),
        decreases key@.len() - i,
    {
        assert(key@.subrange(0, i + 1).drop_last() =~= key@.subrange(0, i as int));
        assert(key@.subrange(0, i + 1).last() == key@[i as int]);
        h = (h ^ (key[i] as u64)).wrapping_mul(FNV_PRIME);
        i += 1;
    }
    assert(key@.subrange(0, key@.len() as int) =~= key@);
    h
}

/// A set of keys in buckets by hash.
pub struct KeyHashSet {
    buckets: HashMap<u64, KeyList>,
}

impl View for KeyHashSet {
    type V = Set<Seq<u8>>;

    closed spec fn view(&self) -> Set<Seq<u8>> {
        Set::new(
            |k: Seq<u8>|
                self.buckets@.contains_key(key_hash(k)) && self.buckets@[key_hash(k)]@.contains(k),
        )
    }
}

impl KeyHashSet {
    /// Every bucket is well formed and holds only keys of its hash.
    pub closed spec fn wf(&self) -> bool {
        forall|h: u64| #[trigger]
            self.buckets@.contains_key(h) ==> self.buckets@[h].wf() && forall|k: Seq<u8>|
                #[trigger] self.buckets@[h]@.contains(k) ==> key_hash(k) == h
    }

    /// An empty set.
    pub fn new() -> (s: Self)
        ensures
            s.wf(),
            s@ == Set::<Seq<u8>>::empty(),
    {
        let s = KeyHashSet { buckets: HashMap::new() };
        assert(s@ =~= Set::<Seq<u8>>::empty());
        s
    }

    /// Whether the key is in the set.
    pub fn contains(&self, key: &[u8]) -> (b: bool)
        requires
            self.wf(),
        ensures
            b == self@.contains(key@),
    {
        let h = hash_key(key);
        match self.buckets.get(&h) {
            Some(bucket) => bucket.contains(key),
            None => false,
        }
    }

    /// Adds the key.
    pub fn insert(&mut self, key: &[u8])
        requires
            old(self).wf(),
        ensures
            final(self).wf(),
            final(self)@ == old(self)@.insert(key@),
    {
        let h = hash_key(key);
        let mut bucket = match self.buckets.remove(&h) {
            Some(b) => b,
            None => KeyList::new(),
        };
        bucket.insert(key);
        self.buckets.insert(h, bucket);
        proof {
            assert forall|g: u64| #[trigger] self.buckets@.contains_key(g) implies self.buckets@[g].wf()
                && forall|k: Seq<u8>| #[trigger]
                self.buckets@[g]@.contains(k) ==> key_hash(k) == g by {
                if g != h {
                    assert(old(self).buckets@.contains_key(g));
                }
            }
            assert(self@ =~= old(self)@.insert(key@));
        }
    }

    /// Takes the key out.
    pub fn remove(&mut self, key: &[u8])
        requires
            old(self).wf(),
        ensures
            final(self).wf(),
            final(self)@ == old(self)@.remove(key@),
    {
        let h = hash_key(key);
        match self.buckets.remove(&h) {
            Some(mut bucket) => {
                bucket.remove(key);
                self.buckets.insert(h, bucket);
                proof {
                    assert forall|g: u64| #[trigger] self.buckets@.contains_key(g) implies self.buckets@[g].wf()
                        && forall|k: Seq<u8>| #[trigger]
                        self.buckets@[g]@.contains(k) ==> key_hash(k) == g by {
                        if g != h {
                            assert(old(self).buckets@.contains_key(g));
                        }
                    }
                    assert(self@ =~= old(self)@.remove(key@));
                }
            },
            None => {
                assert(self@ =~= old(self)@.remove(key@));
            },
        }
    }
}

/// A map from keys to indices in buckets by hash.
pub struct KeyHashMap {
    buckets: HashMap<u64, KeyIndex>,
}

impl View for KeyHashMap {
    type V = Map<Seq<u8>, usize>;

    closed spec fn view(&self) -> Map<Seq<u8>, usize> {
        Map::new(
            |k: Seq<u8>|
                self.buckets@.contains_key(key_hash(k)) && self.buckets@[key_hash(
                    k,
                )]@.dom().contains(k),
            |k: Seq<u8>| self.buckets@[key_hash(k)]@[k],
        )
    }
}

impl KeyHashMap {
    /// Every bucket is well formed and holds only keys of its hash.
    pub closed spec fn wf(&self) -> bool {
        forall|h: u64| #[trigger]
            self.buckets@.contains_key(h) ==> self.buckets@[h].wf() && forall|k: Seq<u8>|
                #[trigger] self.buckets@[h]@.dom().contains(k) ==> key_hash(k) == h
    }

    /// An empty map.
    pub fn new() -> (s: Self)
        ensures
            s.wf(),
            s@ == Map::<Seq<u8>, usize>::empty(),
    {
        let s = KeyHashMap { buckets: HashMap::new() };
        assert(s@ =~= Map::<Seq<u8>, usize>::empty());
        s
    }

    /// Empties the map.
    pub fn clear(&mut self)
        ensures
            final(self).wf(),
            final(self)@ == Map::<Seq<u8>, usize>::empty(),
    {
        self.buckets.clear();
        assert(self@ =~= Map::<Seq<u8>, usize>::empty());
    }

    /// Whether the key is mapped.
    pub fn contains_key(&self, key: &[u8]) -> (b: bool)
        requires
            self.wf(),
        ensures
            b == self@.dom().contains(key@),
    {
        let h = hash_key(key);
        match self.buckets.get(&h) {
            Some(bucket) => bucket.contains_key(key),
            None => false,
        }
    }

    /// Maps the key to the value.
    pub fn insert(&mut self, key: &[u8], value: usize)
        requires
            old(self).wf(),
        ensures
            final(self).wf(),
            final(self)@ == old(self)@.insert(key@, value),
    {
        let h = hash_key(key);
        let mut bucket = match self.buckets.remove(&h) {
            Some(b) => b,
            None => KeyIndex::new(),
        };
        bucket.insert(key, value);
        self.buckets.insert(h, bucket);
        proof {
            assert forall|g: u64| #[trigger] self.buckets@.contains_key(g) implies self.buckets@[g].wf()
                && forall|k: Seq<u8>| #[trigger]
                self.buckets@[g]@.dom().contains(k) ==> key_hash(k) == g by {
                if g != h {
                    assert(old(self).buckets@.contains_key(g));
                }
            }
            assert(self@ =~= old(self)@.insert(key@, value));
        }
    }

    /// Takes the key out of the map.
    pub fn remove(&mut self, key: &[u8])
        requires
            old(self).wf(),
        ensures
            final(self).wf(),
            final(self)@ == old(self)@.remove(key@),
    {
        let h = hash_key(key);
        match self.buckets.remove(&h) {
            Some(mut bucket) => {
                bucket.remove(key);
                self.buckets.insert(h, bucket);
                proof {
                    assert forall|g: u64| #[trigger] self.buckets@.contains_key(g) implies self.buckets@[g].wf()
                        && forall|k: Seq<u8>| #[trigger]
                        self.buckets@[g]@.dom().contains(k) ==> key_hash(k) == g by {
                        if g != h {
                            assert(old(self).buckets@.contains_key(g));
                        }
                    }
                    assert(self@ =~= old(self)@.remove(key@));
                }
            },
            None => {
                assert(self@ =~= old(self)@.remove(key@));
            },
        }
    }
}

} // verus!
