//! A key set on a vector of distinct keys with a hash map from each key to
//! its index beside it.

use crate::keyset::hashed::KeyHashMap;
use crate::keyset::{
    clip, dense, lemma_live_of_dense, lemma_swap_to_multiset, Key, KeySet,
};
use crate::order::{key_le, keys_sorted, keys_view};
use crate::sorting::{sort_keys, swap_items};
use std::ops::Range;
use vstd::multiset::Multiset;
use vstd::prelude::*;

verus! {

/// A key set on a vector of distinct keys, with a hash map from each key to
/// its index; a key that is already held is not added again, and the last key
/// fills the slot of a key taken out.
pub struct VecHashMapIndexKeySet {
    keys: Vec<Key>,
    key_to_index: KeyHashMap,
    sorted: bool,
}

impl View for VecHashMapIndexKeySet {
    type V = Seq<Seq<u8>>;

    /// The keys in index order.
    closed spec fn view(&self) -> Seq<Seq<u8>> {
        keys_view(self.keys@)
    }
}

impl VecHashMapIndexKeySet {
    /// The map from keys to their indices.
    pub closed spec fn index(&self) -> Map<Seq<u8>, usize> {
        self.key_to_index@
    }

    /// The invariant: no key occurs twice, and the map takes each key to its
    /// index and nothing else.
    pub closed spec fn inv(&self) -> bool {
        &&& self.key_to_index.wf()
        &&& self@.no_duplicates()
        &&& forall|k: Seq<u8>| #[trigger]
            self.key_to_index@.dom().contains(k) ==> self@.contains(k)
        &&& forall|i: int|
            0 <= i < self@.len() ==> #[trigger] self.key_to_index@.dom().contains(self@[i])
                && self.key_to_index@[self@[i]] == i
    }

    /// No key occurs twice in the set, and the index map takes each key to
    /// its index and holds no other key.
    pub proof fn lemma_keys_distinct(&self)
        requires
            self.inv(),
        ensures
            self@.no_duplicates(),
            forall|i: int|
                0 <= i < self@.len() ==> #[trigger] self.index().dom().contains(self@[i])
                    && self.index()[self@[i]] == i,
            forall|k: Seq<u8>| #[trigger] self.index().dom().contains(k) ==> self@.contains(k),
    {
    }

    proof fn lemma_inv_at(&self, i: int)
        requires
            self.inv(),
            0 <= i < self@.len(),
        ensures
            self.key_to_index@.dom().contains(self@[i]),
            self.key_to_index@[self@[i]] == i,
    {
        assert(self.key_to_index@.dom().contains(self@[i]));
    }

    proof fn lemma_view(&self)
        ensures
            self@.len() == self.keys@.len(),
            forall|i: int| 0 <= i < self@.len() ==> #[trigger] self@[i] == self.keys@[i]@,
    {
    }

    /// An empty set; `capacity` is the room reserved for keys.
    pub fn new(capacity: usize) -> (s: Self)
        ensures
            s.inv(),
            s@ == Seq::<Seq<u8>>::empty(),
    {
        let s = VecHashMapIndexKeySet {
            keys: Vec::with_capacity(capacity),
            key_to_index: KeyHashMap::new(),
            sorted: true,
        };
        assert(s@ =~= Seq::<Seq<u8>>::empty());
        s
    }
}

/// What taking out the keys at `end - 1` down to `start` leaves, each taken
/// out by moving the last key into its place.
pub open spec fn removed_from_back(s: Seq<Seq<u8>>, start: int, end: int) -> Seq<Seq<u8>>
    decreases end - start,
{
    if start < end {
        removed_from_back(s.update(end - 1, s.last()).drop_last(), start, end - 1)
    } else {
        s
    }
}

/// Distinct items with equal multisets stay distinct.
proof fn lemma_same_multiset_no_duplicates(a: Seq<Seq<u8>>, b: Seq<Seq<u8>>)
    requires
        a.no_duplicates(),
        a.to_multiset() == b.to_multiset(),
    ensures
        b.no_duplicates(),
{
    a.lemma_multiset_has_no_duplicates();
    b.lemma_multiset_has_no_duplicates_conv();
}

impl KeySet for VecHashMapIndexKeySet {
    open spec fn wf(&self) -> bool {
        self.inv()
    }

    open spec fn slots(&self) -> Seq<Option<Seq<u8>>> {
        dense(self@)
    }

    open spec fn must_contain(&self, key: Seq<u8>) -> bool {
        self@.contains(key)
    }

    open spec fn may_contain(&self, key: Seq<u8>) -> bool {
        self@.contains(key)
    }

    open spec fn index_ok(&self, idx: usize) -> bool {
        true
    }

    open spec fn range_ok(&self, start: usize, end: usize) -> bool {
        start >= end || end <= self@.len()
    }

    open spec fn sort_orders(&self) -> bool {
        true
    }

    open spec fn removed_key_at(&self, idx: int) -> Option<Seq<u8>> {
        Some(self@[idx])
    }

    open spec fn slots_after_remove(&self, idx: int) -> Seq<Option<Seq<u8>>> {
        dense(self@.update(idx, self@.last()).drop_last())
    }

    open spec fn slots_without_range(&self, start: int, end: int) -> Seq<Option<Seq<u8>>> {
        dense(removed_from_back(self@, start, end))
    }

    proof fn lemma_slots_hold_keys(&self) {
        broadcast use vstd::seq_lib::group_to_multiset_ensures;

        lemma_live_of_dense(self@);
    }

    proof fn lemma_in_bounds_accepted(&self, idx: usize, start: usize, end: usize) {
        assert(dense(self@).len() == self@.len());
        assert(self.index_ok(idx));
        assert(start <= end <= self.slots().len() ==> self.range_ok(start, end));
    }

    fn len(&self) -> (n: usize) {
        proof {
            self.lemma_view();
        }
        return self.keys.len();
    }

    fn is_empty(&self) -> (b: bool) {
        proof {
            self.lemma_view();
        }
        return self.keys.is_empty();
    }

    /// Appends the key unless it is held already.
    fn push(&mut self, key: Key)
        ensures
            old(self)@.contains(key@) ==> final(self)@ == old(self)@,
            !old(self)@.contains(key@) ==> final(self)@ == old(self)@.push(key@),
    {
        broadcast use vstd::seq_lib::group_to_multiset_ensures;

        proof {
            self.lemma_view();
        }
        if !self.key_to_index.contains_key(key.as_slice()) {
            let n = self.keys.len();
            self.key_to_index.insert(key.as_slice(), n);
            self.keys.push(key);
            proof {
                let v = old(self)@;
                let w = self@;
                assert(w =~= v.push(key@));
                assert(!v.contains(key@));
                assert(w.no_duplicates()) by {
                    assert forall|a: int, b: int| 0 <= a < w.len() && 0 <= b < w.len() && a != b implies w[a] != w[b] by {
                        if a == n as int {
                            assert(v[b] == w[b]);
                        } else if b == n as int {
                            assert(v[a] == w[a]);
                        }
                    }
                }
                assert forall|k: Seq<u8>| #[trigger] self.key_to_index@.dom().contains(k) implies w.contains(k) by {
                    if k == key@ {
                        assert(w[n as int] == k);
                    } else {
                        assert(old(self).key_to_index@.dom().contains(k));
                        let j = choose|j: int| 0 <= j < v.len() && v[j] == k;
                        assert(w[j] == k);
                    }
                }
                assert forall|i: int| 0 <= i < w.len() implies #[trigger] self.key_to_index@.dom().contains(w[i])
                    && self.key_to_index@[w[i]] == i by {
                    if i < n {
                        assert(w[i] == v[i]);
                        assert(v[i] != key@);
                        assert(old(self).key_to_index@.dom().contains(v[i]));
                    }
                }
                lemma_live_of_dense(v);
                lemma_live_of_dense(w);
            }
        } else {
            proof {
                lemma_live_of_dense(old(self)@);
            }
        }
    }

    /// Swaps the key at the index with the last, takes it off the end and
    /// out of the map, and maps the key that moved to its new index.
    fn remove(&mut self, idx: usize) -> (r: Option<Key>)
        ensures
            r matches Some(k) && k@ == old(self)@[idx as int],
            final(self)@ == old(self)@.update(idx as int, old(self)@.last()).drop_last(),
    {
        broadcast use vstd::seq_lib::group_to_multiset_ensures;

        proof {
            self.lemma_view();
        }
        let swap_idx = self.keys.len() - 1;
        swap_items(&mut self.keys, idx, swap_idx);
        let removed = self.keys.pop().unwrap();
        self.key_to_index.remove(removed.as_slice());
        let ghost m1 = self.key_to_index@;
        if idx < self.keys.len() {
            self.key_to_index.insert(self.keys[idx].as_slice(), idx);
        }
        proof {
            let v = old(self)@;
            let n = v.len();
            let m = old(self).key_to_index@;
            let u = v.update(idx as int, v[n - 1]).update(n - 1, v[idx as int]);
            let w = self@;
            assert(keys_view(old(self).keys@.update(idx as int, old(self).keys@[n - 1]).update(
                n - 1,
                old(self).keys@[idx as int],
            )) =~= u);
            assert(w =~= u.drop_last());
            assert(w =~= v.update(idx as int, v.last()).drop_last());
            assert(removed@ == v[idx as int]);
            assert(m1 == m.remove(v[idx as int]));
            assert(w.no_duplicates()) by {
                assert forall|a: int, b: int| 0 <= a < w.len() && 0 <= b < w.len() && a != b implies w[a] != w[b] by {
                    let a1 = if a == idx { n - 1 } else { a };
                    let b1 = if b == idx { n - 1 } else { b };
                    assert(w[a] == v[a1]);
                    assert(w[b] == v[b1]);
                }
            }
            assert forall|k: Seq<u8>| #[trigger] self.key_to_index@.dom().contains(k) implies w.contains(k) by {
                if idx < n - 1 && k == v[n - 1] {
                    assert(w[idx as int] == k);
                } else {
                    assert(m.dom().contains(k) && k != v[idx as int]);
                    let j = choose|j: int| 0 <= j < n && v[j] == k;
                    assert(j != idx);
                    if j == n - 1 {
                        assert(false);
                    } else {
                        assert(w[j] == k);
                    }
                }
            }
            assert forall|i: int| 0 <= i < w.len() implies #[trigger] self.key_to_index@.dom().contains(w[i])
                && self.key_to_index@[w[i]] == i by {
                if i == idx {
                    assert(w[i] == v[n - 1]);
                } else {
                    assert(w[i] == v[i]);
                    assert(v[i] != v[idx as int]);
                    assert(v[i] != v[n - 1]);
                    old(self).lemma_inv_at(i);
                }
            }
            lemma_swap_to_multiset(v, idx as int, n - 1);
            assert(u.drop_last() =~= u.remove(n - 1));
            assert(u[n - 1] == v[idx as int]);
            lemma_live_of_dense(v);
            lemma_live_of_dense(w);
        }
        return Some(removed);
    }

    /// Removes the keys `idx_range` one by one from the last down: the
    /// keys of the range go, each once, and the set shrinks by as many.
    fn remove_range(&mut self, idx_range: Range<usize>)
        ensures
            idx_range.start < idx_range.end ==> final(self)@.to_multiset() == old(
                self,
            )@.to_multiset().sub(
                old(self)@.subrange(idx_range.start as int, idx_range.end as int).to_multiset(),
            ) && final(self)@.len() == old(self)@.len() - (idx_range.end - idx_range.start),
            idx_range.start >= idx_range.end ==> final(self)@ == old(self)@,
    {
        broadcast use vstd::seq_lib::group_to_multiset_ensures;
        broadcast use vstd::multiset::group_multiset_axioms;

        let start = idx_range.start;
        let end = idx_range.end;
        let ghost v = old(self)@;
        proof {
            lemma_live_of_dense(v);
            v.lemma_multiset_has_no_duplicates();
        }
        if start < end {
            let mut i = end;
            assert(v.subrange(end as int, end as int) =~= Seq::<Seq<u8>>::empty());
            assert(v.to_multiset().sub(Multiset::empty()) =~= v.to_multiset());
            while i > start
                invariant
                    start <= i <= end <= v.len(),
                    v == old(self)@,
                    v.no_duplicates(),
                    forall|x: Seq<u8>| v.to_multiset().contains(x) ==> v.to_multiset().count(x) == 1,
                    self.inv(),
                    self@.len() == v.len() - (end - i),
                    forall|j: int| 0 <= j < i ==> #[trigger] self@[j] == v[j],
                    self@.to_multiset() == v.to_multiset().sub(
                        v.subrange(i as int, end as int).to_multiset(),
                    ),
                    removed_from_back(self@, start as int, i as int) == removed_from_back(
                        v,
                        start as int,
                        end as int,
                    ),
                decreases i,
            {
                i -= 1;
                let ghost cur = self@;
                self.remove(i);
                proof {
                    assert(removed_from_back(cur, start as int, i + 1) == removed_from_back(
                        self@,
                        start as int,
                        i as int,
                    ));
                    let x = v[i as int];
                    let a = v.subrange(i + 1, end as int);
                    assert(v.subrange(i as int, end as int) =~= a.insert(0, x));
                    vstd::seq_lib::to_multiset_insert(a, 0, x);
                    assert(!a.contains(x)) by {
                        if a.contains(x) {
                            let j = choose|j: int| 0 <= j < a.len() && a[j] == x;
                            assert(v[i + 1 + j] == x);
                        }
                    }
                    assert(v[i as int] == x);
                    assert(v.contains(x));
                    vstd::seq_lib::to_multiset_contains(v, x);
                    vstd::seq_lib::to_multiset_contains(a, x);
                    assert(v.to_multiset().contains(x));
                    assert(v.to_multiset().count(x) == 1);
                    assert(a.to_multiset().count(x) == 0);
                    lemma_swap_to_multiset(cur, i as int, cur.len() - 1);
                    let u = cur.update(i as int, cur.last()).update(cur.len() - 1, cur[i as int]);
                    assert(self@ =~= u.remove(cur.len() - 1));
                    assert(u[cur.len() - 1] == x);
                    vstd::seq_lib::to_multiset_remove(u, cur.len() - 1);
                    assert(self@.to_multiset() =~= cur.to_multiset().remove(x));
                    assert(self@.to_multiset() =~= v.to_multiset().sub(
                        v.subrange(i as int, end as int).to_multiset(),
                    ));
                }
            }
        }
        proof {
            lemma_live_of_dense(self@);
            if start <= end && end <= v.len() {
                assert(dense(v).subrange(start as int, clip(end, v.len())) =~= dense(
                    v.subrange(start as int, end as int),
                ));
                lemma_live_of_dense(v.subrange(start as int, end as int));
                if start == end {
                    assert(v.subrange(start as int, end as int) =~= Seq::<Seq<u8>>::empty());
                    assert(self@ == v);
                    assert(v.to_multiset().sub(Multiset::empty()) =~= v.to_multiset());
                }
            } else {
                assert(self@ == v);
                assert(v.to_multiset().sub(Multiset::empty()) =~= v.to_multiset());
            }
        }
    }

    /// The key at the index, if the index is within the keys.
    fn get(&self, idx: usize) -> (r: Option<&Key>)
        ensures
            idx < self@.len() ==> (r matches Some(k) && k@ == self@[idx as int]),
            idx >= self@.len() ==> r is None,
    {
        proof {
            self.lemma_view();
        }
        if idx < self.keys.len() {
            proof {
                assert(self.slots()[idx as int] == Some(self@[idx as int]));
            }
            Some(&self.keys[idx])
        } else {
            None
        }
    }

    /// Asks the map.
    fn contains(&self, key: &Key) -> (b: bool)
        ensures
            b == self@.contains(key@),
    {
        let b = self.key_to_index.contains_key(key.as_slice());
        proof {
            if self@.contains(key@) {
                let j = choose|j: int| 0 <= j < self@.len() && self@[j] == key@;
                assert(self.key_to_index@.dom().contains(self@[j]));
            }
        }
        b
    }

    /// Sorts the keys and maps each to its new index.
    fn sort(&mut self)
        ensures
            keys_sorted(final(self)@),
            final(self)@.to_multiset() == old(self)@.to_multiset(),
    {
        broadcast use vstd::seq_lib::group_to_multiset_ensures;

        sort_keys(&mut self.keys);
        self.key_to_index.clear();
        proof {
            self.lemma_view();
            lemma_same_multiset_no_duplicates(old(self)@, self@);
        }
        let n = self.keys.len();
        let mut i: usize = 0;
        while i < n
            invariant
                n == self.keys@.len(),
                n == self@.len(),
                i <= n,
                self.key_to_index.wf(),
                self@.no_duplicates(),
                keys_sorted(self@),
                self@.to_multiset() == old(self)@.to_multiset(),
                forall|k: Seq<u8>| #[trigger]
                    self.key_to_index@.dom().contains(k) ==> self@.subrange(0, i as int).contains(k),
                forall|j: int|
                    0 <= j < i ==> #[trigger] self.key_to_index@.dom().contains(self@[j])
                        && self.key_to_index@[self@[j]] == j,
            decreases n - i,
        {
            self.key_to_index.insert(self.keys[i].as_slice(), i);
            proof {
                let w = self@;
                assert(self.keys@[i as int]@ == w[i as int]);
                assert forall|k: Seq<u8>| #[trigger]
                    self.key_to_index@.dom().contains(k) implies w.subrange(0, i + 1).contains(k) by {
                    if k == w[i as int] {
                        assert(w.subrange(0, i + 1)[i as int] == k);
                    } else {
                        let j = choose|j: int| 0 <= j < i && w.subrange(0, i as int)[j] == k;
                        assert(w.subrange(0, i + 1)[j] == k);
                    }
                }
                assert forall|j: int|
                    0 <= j < i + 1 implies #[trigger] self.key_to_index@.dom().contains(w[j])
                        && self.key_to_index@[w[j]] == j by {
                    if j < i {
                        assert(w[j] != w[i as int]);
                    }
                }
            }
            i += 1;
        }
        proof {
            let w = self@;
            assert(w.subrange(0, n as int) =~= w);
            assert(w.to_multiset().len() == old(self)@.to_multiset().len());
            lemma_live_of_dense(old(self)@);
            lemma_live_of_dense(w);
            assert(self.slots().len() == w.len());
            assert(old(self).slots().len() == old(self)@.len());
            assert forall|a: int, b: int|
                0 <= a < b < self.slots().len() && (#[trigger] self.slots()[a]) is Some && (
                #[trigger] self.slots()[b]) is Some implies key_le(
                self.slots()[a]->0,
                self.slots()[b]->0,
            ) by {
                assert(key_le(w[a], w[b]));
            }
        }
    }
}

} // verus!
