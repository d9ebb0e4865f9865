//! A key set on a vector of keys with a hash set of keys beside it, which
//! answers `contains`.

use crate::keyset::hashed::KeyHashSet;
use crate::keyset::{
    cut_keys,
    clip, copy_key, range_keys, dense, lemma_live_of_cut, lemma_live_of_dense, live_of, Key,
    KeySet,
};
use crate::order::{
    key_less, key_lt, keys_sorted, keys_view, lemma_sorted_cut, lemma_sorted_push,
    lemma_sorted_remove,
};
use crate::sorting::sort_keys;
use std::ops::Range;
use vstd::prelude::*;

verus! {

/// A key set on a vector of keys, with a hash set of keys that answers
/// `contains` and a flag that says whether the keys need sorting.
///
/// Taking out one of two equal keys takes the key out of the set: the set
/// then no longer answers for the copy that stays.
pub struct VecHashSetKeySet {
    keys: Vec<Key>,
    key_set: KeyHashSet,
    sorted: bool,
}

impl View for VecHashSetKeySet {
    type V = Seq<Seq<u8>>;

    /// The keys in index order.
    closed spec fn view(&self) -> Seq<Seq<u8>> {
        keys_view(self.keys@)
    }
}

impl VecHashSetKeySet {
    /// The keys that `contains` answers for.
    pub closed spec fn key_set(&self) -> Set<Seq<u8>> {
        self.key_set@
    }

    /// The flag that lets `sort` skip the sorting.
    pub closed spec fn marked_sorted(&self) -> bool {
        self.sorted
    }

    /// The invariant: the set answers only for keys that are held, and the
    /// flag holds only of sorted keys.
    pub closed spec fn inv(&self) -> bool {
        &&& self.key_set.wf()
        &&& forall|k: Seq<u8>| #[trigger] self.key_set@.contains(k) ==> self@.contains(k)
        &&& self.sorted ==> keys_sorted(self@)
    }

    proof fn lemma_view(&self)
        ensures
            self@.len() == self.keys@.len(),
            forall|i: int| 0 <= i < self@.len() ==> #[trigger] self@[i] == self.keys@[i]@,
    {
    }

    /// An empty set; `capacity` is the room reserved for keys.
    pub fn new(capacity: usize) -> (s: Self)
        ensures
            s.inv(),
            s@ == Seq::<Seq<u8>>::empty(),
            s.key_set() == Set::<Seq<u8>>::empty(),
            s.marked_sorted(),
    {
        let s = VecHashSetKeySet {
            keys: Vec::with_capacity(capacity),
            key_set: KeyHashSet::new(),
            sorted: true,
        };
        assert(s@ =~= Seq::<Seq<u8>>::empty());
        s
    }
}

impl KeySet for VecHashSetKeySet {
    open spec fn wf(&self) -> bool {
        self.inv()
    }

    open spec fn slots(&self) -> Seq<Option<Seq<u8>>> {
        dense(self@)
    }

    open spec fn must_contain(&self, key: Seq<u8>) -> bool {
        self.key_set().contains(key)
    }

    open spec fn may_contain(&self, key: Seq<u8>) -> bool {
        self.key_set().contains(key)
    }

    open spec fn index_ok(&self, idx: usize) -> bool {
        true
    }

    open spec fn range_ok(&self, start: usize, end: usize) -> bool {
        start <= end <= self@.len()
    }

    open spec fn sort_orders(&self) -> bool {
        true
    }

    open spec fn removed_key_at(&self, idx: int) -> Option<Seq<u8>> {
        Some(self@[idx])
    }

    open spec fn slots_after_remove(&self, idx: int) -> Seq<Option<Seq<u8>>> {
        dense(self@.remove(idx))
    }

    open spec fn slots_without_range(&self, start: int, end: int) -> Seq<Option<Seq<u8>>> {
        dense(cut_keys(self@, start, end))
    }

    proof fn lemma_slots_hold_keys(&self) {
        broadcast use vstd::seq_lib::group_to_multiset_ensures;

        lemma_live_of_dense(self@);
    }

    proof fn lemma_in_bounds_accepted(&self, idx: usize, start: usize, end: usize) {
        assert(dense(self@).len() == self@.len());
        assert(self.index_ok(idx));
        assert(start <= end <= self.slots().len() ==> self.range_ok(start, end));
    }

    fn len(&self) -> (n: usize) {
        proof {
            self.lemma_view();
        }
        return self.keys.len();
    }

    fn is_empty(&self) -> (b: bool) {
        proof {
            self.lemma_view();
        }
        return self.keys.is_empty();
    }

    /// Appends the key and adds it to the set; the flag drops when the key
    /// comes before the last.
    fn push(&mut self, key: Key)
        ensures
            final(self)@ == old(self)@.push(key@),
            final(self).key_set() == old(self).key_set().insert(key@),
            final(self).marked_sorted() == (old(self).marked_sorted() && !(old(self)@.len() > 0
                && key_lt(key@, old(self)@.last()))),
    {
        broadcast use vstd::seq_lib::group_to_multiset_ensures;

        proof {
            self.lemma_view();
        }
        let n = self.keys.len();
        if self.sorted && n > 0 && key_less(key.as_slice(), self.keys[n - 1].as_slice()) {
            self.sorted = false;
        }
        self.keys.push(copy_key(&key));
        self.key_set.insert(key.as_slice());
        proof {
            assert(self@ =~= old(self)@.push(key@));
            if self.sorted {
                lemma_sorted_push(old(self)@, key@);
            }
            assert forall|k: Seq<u8>| #[trigger] self.key_set@.contains(k) implies self@.contains(
                k,
            ) by {
                if k == key@ {
                    assert(self@[self@.len() - 1] == k);
                } else {
                    let j = choose|j: int| 0 <= j < old(self)@.len() && old(self)@[j] == k;
                    assert(self@[j] == k);
                }
            }
            lemma_live_of_dense(self@);
            lemma_live_of_dense(old(self)@);
        }
    }

    /// Removes the key at the index, keeping the order of the rest, and
    /// takes it out of the set.
    fn remove(&mut self, idx: usize) -> (r: Option<Key>)
        ensures
            r matches Some(k) && k@ == old(self)@[idx as int],
            final(self)@ == old(self)@.remove(idx as int),
            final(self).key_set() == old(self).key_set().remove(old(self)@[idx as int]),
            final(self).marked_sorted() == old(self).marked_sorted(),
    {
        broadcast use vstd::seq_lib::group_to_multiset_ensures;

        proof {
            self.lemma_view();
        }
        let key = self.keys.remove(idx);
        self.key_set.remove(key.as_slice());
        proof {
            let v = old(self)@;
            assert(self@ =~= v.remove(idx as int));
            if self.sorted {
                lemma_sorted_remove(v, idx as int);
            }
            assert forall|k: Seq<u8>| #[trigger] self.key_set@.contains(k) implies self@.contains(
                k,
            ) by {
                let j = choose|j: int| 0 <= j < v.len() && v[j] == k;
                assert(j != idx);
                if j < idx {
                    assert(self@[j] == k);
                } else {
                    assert(self@[j - 1] == k);
                }
            }
            lemma_live_of_dense(v);
            lemma_live_of_dense(self@);
        }
        return Some(key);
    }

    /// Takes the keys `idx_range` out of the set, then removes them,
    /// keeping the order of the rest.
    fn remove_range(&mut self, idx_range: Range<usize>)
        ensures
            final(self)@ == old(self)@.subrange(0, idx_range.start as int) + old(self)@.subrange(
                idx_range.end as int,
                old(self)@.len() as int,
            ),
            final(self).key_set() == old(self).key_set().difference(
                old(self)@.subrange(idx_range.start as int, idx_range.end as int).to_set(),
            ),
            final(self).marked_sorted() == old(self).marked_sorted(),
    {
        proof {
            self.lemma_view();
        }
        let start = idx_range.start;
        let end = idx_range.end;
        let mut idx = start;
        while idx < end
            invariant
                start <= idx <= end <= self@.len(),
                self.keys == old(self).keys,
                self.sorted == old(self).sorted,
                self.key_set.wf(),
                self@.len() == self.keys@.len(),
                self.key_set@ == old(self).key_set@.difference(
                    old(self)@.subrange(start as int, idx as int).to_set(),
                ),
            decreases end - idx,
        {
            self.key_set.remove(self.keys[idx].as_slice());
            proof {
                let v = old(self)@;
                assert(v.subrange(start as int, idx + 1) =~= v.subrange(start as int, idx as int).push(v[idx as int]));
                v.subrange(start as int, idx as int).lemma_push_to_set_commute(v[idx as int]);
                assert(self.key_set@ =~= old(self).key_set@.difference(
                    v.subrange(start as int, idx + 1).to_set(),
                ));
            }
            idx += 1;
        }
        let mut tail = self.keys.split_off(end);
        self.keys.truncate(start);
        self.keys.append(&mut tail);
        proof {
            let v = old(self)@;
            let (s, e) = (start as int, end as int);
            assert(self@ =~= v.subrange(0, s) + v.subrange(e, v.len() as int));
            assert(dense(self@) =~= dense(v).subrange(0, s) + dense(v).subrange(e, v.len() as int));
            assert(dense(v).subrange(s, clip(end, v.len())) =~= dense(v).subrange(s, e));
            assert(range_keys(dense(v), start, end) == live_of(dense(v).subrange(s, e)));
            lemma_live_of_cut(dense(v), s, e);
            if self.sorted {
                lemma_sorted_cut(v, s, e);
            }
            assert forall|k: Seq<u8>| #[trigger] self.key_set@.contains(k) implies self@.contains(
                k,
            ) by {
                let j = choose|j: int| 0 <= j < v.len() && v[j] == k;
                if s <= j < e {
                    assert(v.subrange(s, e)[j - s] == k);
                    assert(v.subrange(s, e).to_set().contains(k));
                } else if j < s {
                    assert(self@[j] == k);
                } else {
                    assert(self@[j - (e - s)] == k);
                }
            }
        }
    }

    /// The key at the index, if the index is within the keys.
    fn get(&self, idx: usize) -> (r: Option<&Key>)
        ensures
            idx < self@.len() ==> (r matches Some(k) && k@ == self@[idx as int]),
            idx >= self@.len() ==> r is None,
    {
        proof {
            self.lemma_view();
        }
        if idx < self.keys.len() {
            proof {
                assert(self.slots()[idx as int] == Some(self@[idx as int]));
            }
            Some(&self.keys[idx])
        } else {
            None
        }
    }

    /// Asks the set.
    fn contains(&self, key: &Key) -> (b: bool)
        ensures
            b == self.key_set().contains(key@),
    {
        self.key_set.contains(key.as_slice())
    }

    /// Sorts the keys unless the flag says they are sorted.
    fn sort(&mut self)
        ensures
            old(self).marked_sorted() ==> final(self)@ == old(self)@,
            keys_sorted(final(self)@),
            final(self)@.to_multiset() == old(self)@.to_multiset(),
            final(self).key_set() == old(self).key_set(),
            final(self).marked_sorted(),
    {
        broadcast use vstd::seq_lib::group_to_multiset_ensures;

        if !self.sorted {
            sort_keys(&mut self.keys);
            self.sorted = true;
        }
        proof {
            lemma_live_of_dense(old(self)@);
            lemma_live_of_dense(self@);
            assert(self@.to_multiset().len() == old(self)@.to_multiset().len());
            assert(self.slots().len() == self@.len());
            assert forall|k: Seq<u8>| #[trigger] self.key_set@.contains(k) implies self@.contains(
                k,
            ) by {
                assert(old(self)@.to_multiset().count(k) > 0);
            }
            assert forall|i: int, j: int|
                0 <= i < j < self.slots().len() && (#[trigger] self.slots()[i]) is Some && (
                #[trigger] self.slots()[j]) is Some implies crate::order::key_le(
                self.slots()[i]->0,
                self.slots()[j]->0,
            ) by {
                assert(crate::order::key_le(self@[i], self@[j]));
            }
        }
    }
}

} // verus!
